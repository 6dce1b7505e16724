use vstd::prelude::*;

pub mod constants;
pub mod coverage;
pub mod alignment;
pub mod logging;
pub mod commands;
pub mod fasta;

verus! {

} // verus!
