use vstd::prelude::*;

use crate::alignment::chars_of;

verus! {

/// Where a FASTA text stands after the lines read so far.
#[derive(Clone, Copy, Debug, PartialEq, Eq, Structural)]
pub enum FastaState {
    /// No record yet.
    Start,
    /// A header line with no sequence line after it yet.
    NeedSequence,
    /// A header followed by at least one sequence line.
    HasSequence,
    /// A sequence line before any header, or two headers in a row.
    Invalid,
}

/// Whether the current line has shown a character other than blank space yet,
/// and of which kind.
#[derive(Clone, Copy, Debug, PartialEq, Eq, Structural)]
pub enum LineState {
    Blank,
    Header,
    Sequence,
}

pub open spec fn is_blank(c: char) -> bool {
    c == ' ' || c == '\t' || c == '\r'
}

pub open spec fn after_header(s: FastaState) -> FastaState {
    match s {
        FastaState::Start => FastaState::NeedSequence,
        FastaState::HasSequence => FastaState::NeedSequence,
        _ => FastaState::Invalid,
    }
}

pub open spec fn after_sequence_line(s: FastaState) -> FastaState {
    match s {
        FastaState::NeedSequence => FastaState::HasSequence,
        FastaState::HasSequence => FastaState::HasSequence,
        _ => FastaState::Invalid,
    }
}

/// One character: a newline ends the line; the first non-blank character of a
/// line makes it a header (`>`) or a sequence line.
pub open spec fn fasta_step(st: (FastaState, LineState), c: char) -> (FastaState, LineState) {
    if c == '\n' {
        (st.0, LineState::Blank)
    } else if st.1 == LineState::Blank && !is_blank(c) {
        if c == '>' {
            (after_header(st.0), LineState::Header)
        } else {
            (after_sequence_line(st.0), LineState::Sequence)
        }
    } else {
        st
    }
}

pub open spec fn fasta_scan(t: Seq<char>) -> (FastaState, LineState)
    decreases t.len(),
{
    if t.len() == 0 {
        (FastaState::Start, LineState::Blank)
    } else {
        fasta_step(fasta_scan(t.drop_last()), t.last())
    }
}

/// A FASTA text is one or more records, each a `>` header line followed by at
/// least one sequence line; blank lines are ignored.
pub open spec fn fasta_valid(t: Seq<char>) -> bool {
    fasta_scan(t).0 == FastaState::HasSequence
}

fn step_exec(st: (FastaState, LineState), c: char) -> (r: (FastaState, LineState))
    ensures
        r == fasta_step(st, c),
{
    if c == '\n' {
        (st.0, LineState::Blank)
    } else if st.1 == LineState::Blank && !(c == ' ' || c == '\t' || c == '\r') {
        if c == '>' {
            let d = match st.0 {
                FastaState::Start => FastaState::NeedSequence,
                FastaState::HasSequence => FastaState::NeedSequence,
                _ => FastaState::Invalid,
            };
            (d, LineState::Header)
        } else {
            let d = match st.0 {
                FastaState::NeedSequence => FastaState::HasSequence,
                FastaState::HasSequence => FastaState::HasSequence,
                _ => FastaState::Invalid,
            };
            (d, LineState::Sequence)
        }
    } else {
        st
    }
}

/// Whether a text is well-formed FASTA.
pub fn fasta_text_ok(text: &str) -> (r: bool)
    ensures
        r == fasta_valid(text@),
{
    let cs = chars_of(text);
    let mut st = (FastaState::Start, LineState::Blank);
    let mut k: usize = 0;
    while k < cs.len()
        invariant
            k <= cs@.len(),
            cs@ == text@,
            st == fasta_scan(cs@.subrange(0, k as int)),
        decreases cs@.len() - k,
    {
        proof {
            let t = cs@.subrange(0, k as int + 1);
            assert(t.drop_last() =~= cs@.subrange(0, k as int));
        }
        st = step_exec(st, cs[k]);
        k = k + 1;
    }
    assert(cs@.subrange(0, cs@.len() as int) =~= cs@);
    st.0 == FastaState::HasSequence
}

} // verus!
