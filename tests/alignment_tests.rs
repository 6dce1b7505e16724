use biolens::alignment::{align, AlignmentError, AlignmentResult, ScoringParams, Sequence};
use biolens::constants::{AlignmentMethod, ErrorKind};
use biolens::coverage::CoverageError;

fn seq(s: &str) -> Sequence {
    Sequence { identifier: "s".to_string(), residues: s.to_string() }
}

fn scoring(m: i64, x: i64, g: i64) -> ScoringParams {
    ScoringParams { match_score: m, mismatch_penalty: x, gap_open_penalty: g, gap_extend_penalty: g }
}

fn run(a: &str, b: &str, method: AlignmentMethod, sc: ScoringParams) -> AlignmentResult {
    align(&seq(a), &seq(b), method, sc).unwrap()
}

fn identity(r: &AlignmentResult) -> f64 {
    let len = r.aligned_seq1.chars().count();
    if len == 0 {
        0.0
    } else {
        r.matches as f64 / len as f64
    }
}

fn ungapped(s: &str) -> String {
    s.chars().filter(|c| *c != '-').collect()
}

#[test]
fn needleman_wunsch_textbook_score() {
    let r = run("GATTACA", "GCATGCU", AlignmentMethod::Global, scoring(1, -1, -1));
    assert_eq!(r.score, 0);
    assert_eq!(ungapped(&r.aligned_seq1), "GATTACA");
    assert_eq!(ungapped(&r.aligned_seq2), "GCATGCU");
    assert_eq!(r.aligned_seq1.len(), r.aligned_seq2.len());
}

#[test]
fn smith_waterman_finds_shared_region() {
    let a = "AGACTAGTTAC";
    let b = "CGAGACGT";
    let r = run(a, b, AlignmentMethod::Local, scoring(2, -1, -2));
    assert!(r.score > 0);
    assert!(r.score >= 8);
    assert!(r.aligned_seq1.contains("GAC"));
    assert!(a.contains(&ungapped(&r.aligned_seq1)));
    assert!(b.contains(&ungapped(&r.aligned_seq2)));
    assert_eq!(&a[r.start1..r.end1], ungapped(&r.aligned_seq1));
    assert_eq!(&b[r.start2..r.end2], ungapped(&r.aligned_seq2));
}

#[test]
fn global_self_alignment_scores_length() {
    for s in ["A", "ACGT", "GATTACA", "MKVLAAGIX"] {
        let r = run(s, s, AlignmentMethod::Global, scoring(1, -1, -1));
        assert_eq!(r.score, s.len() as i64);
        assert_eq!(identity(&r), 1.0);
        assert_eq!(r.aligned_seq1, s);
        assert_eq!(r.aligned_seq2, s);
    }
}

#[test]
fn local_score_is_never_negative() {
    for (a, b) in [("AAAA", "TTTT"), ("A", "C"), ("ACGT", "TGCA"), ("GG", "GATTACA")] {
        let r = run(a, b, AlignmentMethod::Local, scoring(1, -3, -5));
        assert!(r.score >= 0);
    }
    let r = run("AAAA", "TTTT", AlignmentMethod::Local, scoring(1, -1, -1));
    assert_eq!(r.score, 0);
    assert_eq!(r.aligned_seq1, "");
}

#[test]
fn semi_global_substring_charges_no_end_gaps() {
    let r = run("TTTTACGTACTTT", "ACGTAC", AlignmentMethod::SemiGlobal, scoring(2, -1, -2));
    assert_eq!(r.score, 12);
    assert_eq!(r.aligned_seq1, "ACGTAC");
    assert_eq!(r.aligned_seq2, "ACGTAC");
    let r = run("GATT", "CCGATTCC", AlignmentMethod::SemiGlobal, scoring(1, -1, -1));
    assert_eq!(r.score, 4);
}

#[test]
fn residues_compare_case_insensitively() {
    let r = run("acgt", "ACGT", AlignmentMethod::Global, scoring(1, -1, -1));
    assert_eq!(r.score, 4);
    assert_eq!(r.matches, 4);
}

#[test]
fn global_alignment_pads_with_gaps() {
    let r = run("ACGT", "AGT", AlignmentMethod::Global, scoring(1, -1, -1));
    assert_eq!(r.score, 2);
    assert_eq!(r.aligned_seq1, "ACGT");
    assert_eq!(r.aligned_seq2, "A-GT");
    assert_eq!((r.start1, r.end1, r.start2, r.end2), (0, 4, 0, 3));
}

#[test]
fn empty_sequence_is_an_input_error() {
    let r = align(&seq(""), &seq("ACGT"), AlignmentMethod::Global, scoring(1, -1, -1));
    assert_eq!(r.err(), Some(AlignmentError::EmptySequence { sequence: 1 }));
    let r = align(&seq("ACGT"), &seq(""), AlignmentMethod::Local, scoring(1, -1, -1));
    assert_eq!(r.err(), Some(AlignmentError::EmptySequence { sequence: 2 }));
}

#[test]
fn invalid_residue_cites_character_and_index() {
    let r = align(&seq("ACG1T"), &seq("ACGT"), AlignmentMethod::Global, scoring(1, -1, -1));
    assert_eq!(
        r.err(),
        Some(AlignmentError::InvalidResidue { sequence: 1, index: 3, residue: '1' })
    );
    let r = align(&seq("ACGT"), &seq("AC-T"), AlignmentMethod::Global, scoring(1, -1, -1));
    assert_eq!(
        r.err(),
        Some(AlignmentError::InvalidResidue { sequence: 2, index: 2, residue: '-' })
    );
}

#[test]
fn score_beyond_i64_overflows() {
    let r = align(&seq("AA"), &seq("AA"), AlignmentMethod::Global, scoring(i64::MAX, -1, -1));
    assert_eq!(r.err(), Some(AlignmentError::ScoreOverflow));
}

#[test]
fn errors_fall_into_their_kinds() {
    assert_eq!(AlignmentError::EmptySequence { sequence: 1 }.kind(), ErrorKind::InputError);
    assert_eq!(
        AlignmentError::InvalidResidue { sequence: 2, index: 0, residue: '!' }.kind(),
        ErrorKind::FormatError
    );
    assert_eq!(AlignmentError::ScoreOverflow.kind(), ErrorKind::ComputationError);
    assert_eq!(CoverageError::EmptyInput.kind(), ErrorKind::InputError);
    assert_eq!(CoverageError::InvalidRegion.kind(), ErrorKind::FormatError);
    assert_eq!(CoverageError::InvalidWindowSize.kind(), ErrorKind::FormatError);
    assert_eq!(CoverageError::InvalidStepSize.kind(), ErrorKind::FormatError);
    assert_eq!(CoverageError::MixedChromosomes.kind(), ErrorKind::FormatError);
}

#[test]
fn reported_score_is_the_score_of_the_columns() {
    let sc = scoring(3, -2, -1);
    for method in [AlignmentMethod::Global, AlignmentMethod::Local, AlignmentMethod::SemiGlobal] {
        let r = run("GATTACAGG", "GCATGCUAG", method, sc);
        let total: i64 = r
            .aligned_seq1
            .chars()
            .zip(r.aligned_seq2.chars())
            .map(|(x, y)| {
                if x == '-' || y == '-' {
                    -1
                } else if x.eq_ignore_ascii_case(&y) {
                    3
                } else {
                    -2
                }
            })
            .sum();
        assert_eq!(total, r.score);
    }
}
