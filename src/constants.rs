use vstd::prelude::*;

verus! {

/// Output formats understood by the rendering layer.
#[derive(Clone, Copy, Debug, PartialEq, Eq, Structural)]
pub enum OutputFormat {
    Text,
    PNG,
    SVG,
    HTML,
}

/// Granularity of a coverage profile.
#[derive(Clone, Copy, Debug, PartialEq, Eq, Structural)]
pub enum CoverageMethod {
    PerBase,
    WindowAverage,
    SlidingWindow,
}

/// Boundary conditions of a pairwise alignment.
#[derive(Clone, Copy, Debug, PartialEq, Eq, Structural)]
pub enum AlignmentMethod {
    Global,
    Local,
    SemiGlobal,
}

/// The broad classes of failure that the engines report.
#[derive(Clone, Copy, Debug, PartialEq, Eq, Structural)]
pub enum ErrorKind {
    /// Missing or empty input data.
    InputError,
    /// Input present but malformed: bounds, residues, window parameters.
    FormatError,
    /// An internal limit was exceeded while computing.
    ComputationError,
}

} // verus!
