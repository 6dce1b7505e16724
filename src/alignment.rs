use vstd::prelude::*;

use crate::constants::{AlignmentMethod, ErrorKind};

verus! {

/// A named biological sequence.
pub struct Sequence {
    pub identifier: String,
    pub residues: String,
}

/// Linear gap scoring: every gap position costs `gap_open_penalty`.
/// `gap_extend_penalty` is kept for callers that describe an affine model.
#[derive(Clone, Copy, Debug, PartialEq, Eq, Structural)]
pub struct ScoringParams {
    pub match_score: i64,
    pub mismatch_penalty: i64,
    pub gap_open_penalty: i64,
    pub gap_extend_penalty: i64,
}

/// An optimal alignment. `aligned_seq1` covers residues `start1..end1` of the
/// first sequence and `aligned_seq2` residues `start2..end2` of the second,
/// both padded with `GAP`. `matches` counts the columns of equal residues; the
/// identity is `matches` over the aligned length.
pub struct AlignmentResult {
    pub method: AlignmentMethod,
    pub score: i64,
    pub aligned_seq1: String,
    pub aligned_seq2: String,
    pub start1: usize,
    pub end1: usize,
    pub start2: usize,
    pub end2: usize,
    pub matches: usize,
}

#[derive(Clone, Copy, Debug, PartialEq, Eq, Structural)]
pub enum AlignmentError {
    /// The first (`1`) or second (`2`) sequence has no residues.
    EmptySequence { sequence: u8 },
    /// A character outside the residue alphabet, with its 0-based index.
    InvalidResidue { sequence: u8, index: usize, residue: char },
    /// The optimal score does not fit in an `i64`.
    ScoreOverflow,
}

impl AlignmentError {
    pub fn kind(&self) -> (r: ErrorKind)
        ensures
            r == (match self {
                AlignmentError::EmptySequence { .. } => ErrorKind::InputError,
                AlignmentError::InvalidResidue { .. } => ErrorKind::FormatError,
                AlignmentError::ScoreOverflow => ErrorKind::ComputationError,
            }),
    {
        match self {
            AlignmentError::EmptySequence { .. } => ErrorKind::InputError,
            AlignmentError::InvalidResidue { .. } => ErrorKind::FormatError,
            AlignmentError::ScoreOverflow => ErrorKind::ComputationError,
        }
    }
}

pub const GAP: char = '-';

/// Residues are ASCII letters, in either case.
pub open spec fn is_residue(c: char) -> bool {
    (65 <= (c as u32) <= 90) || (97 <= (c as u32) <= 122)
}

/// The upper-case code of a letter; other characters are left alone.
pub open spec fn fold(c: char) -> u32 {
    if 97 <= (c as u32) <= 122 {
        (c as u32 - 32) as u32
    } else {
        c as u32
    }
}

pub open spec fn all_residues(s: Seq<char>) -> bool {
    forall|k: int| 0 <= k < s.len() ==> is_residue(#[trigger] s[k])
}

/// Index of the first non-residue of `s`, if there is one.
pub open spec fn first_invalid(s: Seq<char>, k: int) -> bool {
    0 <= k < s.len() && !is_residue(s[k]) && forall|t: int| 0 <= t < k ==> is_residue(#[trigger] s[t])
}

pub open spec fn sub_score(sc: ScoringParams, x: char, y: char) -> int {
    if fold(x) == fold(y) {
        sc.match_score as int
    } else {
        sc.mismatch_penalty as int
    }
}

pub open spec fn max3(d: int, u: int, l: int) -> int {
    if d >= u && d >= l {
        d
    } else if u >= l {
        u
    } else {
        l
    }
}

/// Best score of aligning `a[..i]` against `b[..j]` under the method's
/// boundary conditions.
pub open spec fn dp(m: AlignmentMethod, a: Seq<char>, b: Seq<char>, sc: ScoringParams, i: int, j: int) -> int
    decreases i + j,
{
    let gap = sc.gap_open_penalty as int;
    if i <= 0 && j <= 0 {
        0
    } else if i <= 0 {
        if m == AlignmentMethod::Global {
            j * gap
        } else {
            0
        }
    } else if j <= 0 {
        if m == AlignmentMethod::Global {
            i * gap
        } else {
            0
        }
    } else {
        let v = max3(
            dp(m, a, b, sc, i - 1, j - 1) + sub_score(sc, a[i - 1], b[j - 1]),
            dp(m, a, b, sc, i - 1, j) + gap,
            dp(m, a, b, sc, i, j - 1) + gap,
        );
        if m == AlignmentMethod::Local && v < 0 {
            0
        } else {
            v
        }
    }
}

/// Cells where the traceback may begin.
pub open spec fn candidate(m: AlignmentMethod, n1: int, n2: int, i: int, j: int) -> bool {
    &&& 0 <= i <= n1
    &&& 0 <= j <= n2
    &&& match m {
        AlignmentMethod::Global => i == n1 && j == n2,
        AlignmentMethod::Local => true,
        AlignmentMethod::SemiGlobal => i == n1 || j == n2,
    }
}

pub open spec fn row_major_before(p: int, q: int, i: int, j: int) -> bool {
    p < i || (p == i && q < j)
}

/// The traceback starts at the best candidate cell, the first in row-major
/// order among equals.
pub open spec fn is_start(m: AlignmentMethod, a: Seq<char>, b: Seq<char>, sc: ScoringParams, i: int, j: int) -> bool {
    &&& candidate(m, a.len() as int, b.len() as int, i, j)
    &&& forall|p: int, q: int|
        #[trigger] candidate(m, a.len() as int, b.len() as int, p, q) ==> dp(m, a, b, sc, p, q) <= dp(
            m,
            a,
            b,
            sc,
            i,
            j,
        )
    &&& forall|p: int, q: int|
        #[trigger] candidate(m, a.len() as int, b.len() as int, p, q) && row_major_before(p, q, i, j)
            ==> dp(m, a, b, sc, p, q) < dp(m, a, b, sc, i, j)
}

/// Where the traceback stops.
pub open spec fn stops(m: AlignmentMethod, a: Seq<char>, b: Seq<char>, sc: ScoringParams, i: int, j: int) -> bool {
    match m {
        AlignmentMethod::Global => i <= 0 && j <= 0,
        AlignmentMethod::Local => dp(m, a, b, sc, i, j) == 0,
        AlignmentMethod::SemiGlobal => i <= 0 || j <= 0,
    }
}

/// The step taken back from `(i, j)`: `0` diagonal, `1` up (gap in the second
/// sequence), `2` left (gap in the first). Ties prefer diagonal, then up.
pub open spec fn step(m: AlignmentMethod, a: Seq<char>, b: Seq<char>, sc: ScoringParams, i: int, j: int) -> int {
    let here = dp(m, a, b, sc, i, j);
    let gap = sc.gap_open_penalty as int;
    if i > 0 && j > 0 && here == dp(m, a, b, sc, i - 1, j - 1) + sub_score(sc, a[i - 1], b[j - 1]) {
        0
    } else if i > 0 && (j <= 0 || here == dp(m, a, b, sc, i - 1, j) + gap) {
        1
    } else {
        2
    }
}

/// The aligned rows from the stopping cell up to `(i, j)`, and that cell.
pub open spec fn trace(m: AlignmentMethod, a: Seq<char>, b: Seq<char>, sc: ScoringParams, i: int, j: int) -> (
    Seq<char>,
    Seq<char>,
    int,
    int,
)
    decreases i + j,
{
    if stops(m, a, b, sc, i, j) || (i <= 0 && j <= 0) || i < 0 || j < 0 {
        (Seq::empty(), Seq::empty(), i, j)
    } else {
        let s = step(m, a, b, sc, i, j);
        if s == 0 {
            let t = trace(m, a, b, sc, i - 1, j - 1);
            (t.0.push(a[i - 1]), t.1.push(b[j - 1]), t.2, t.3)
        } else if s == 1 {
            let t = trace(m, a, b, sc, i - 1, j);
            (t.0.push(a[i - 1]), t.1.push(GAP), t.2, t.3)
        } else {
            let t = trace(m, a, b, sc, i, j - 1);
            (t.0.push(GAP), t.1.push(b[j - 1]), t.2, t.3)
        }
    }
}

/// Columns of two aligned rows that hold equal residues.
pub open spec fn count_matches(x: Seq<char>, y: Seq<char>) -> int
    decreases x.len(),
{
    if x.len() == 0 || y.len() == 0 {
        0
    } else {
        count_matches(x.drop_last(), y.drop_last()) + if x.last() != GAP && y.last() != GAP && fold(
            x.last(),
        ) == fold(y.last()) {
            1int
        } else {
            0
        }
    }
}

/// Relies on `str::chars` collected into a `Vec`: the characters of `s`, in order.
#[verifier::external_body]
pub(crate) fn chars_of(s: &str) -> (r: Vec<char>)
    ensures
        r@ == s@,
{
    s.chars().collect()
}

/// Relies on `String`'s `FromIterator<&char>`: the string of these characters.
#[verifier::external_body]
fn string_of(v: &Vec<char>) -> (r: String)
    ensures
        r@ == v@,
{
    v.iter().collect()
}

fn residue_ok(c: char) -> (r: bool)
    ensures
        r == is_residue(c),
{
    let v = c as u32;
    (65 <= v && v <= 90) || (97 <= v && v <= 122)
}

fn fold_exec(c: char) -> (r: u32)
    ensures
        r == fold(c),
{
    let v = c as u32;
    if 97 <= v && v <= 122 {
        v - 32
    } else {
        v
    }
}

/// Index of the first character of `s` outside the residue alphabet.
fn find_invalid(s: &Vec<char>) -> (r: Option<usize>)
    ensures
        r matches Some(k) ==> first_invalid(s@, k as int),
        r is None ==> all_residues(s@),
{
    let mut k: usize = 0;
    while k < s.len()
        invariant
            k <= s@.len(),
            forall|t: int| 0 <= t < k ==> is_residue(#[trigger] s@[t]),
        decreases s@.len() - k,
    {
        if !residue_ok(s[k]) {
            return Some(k);
        }
        k = k + 1;
    }
    None
}

proof fn lemma_first_invalid_unique(s: Seq<char>, k1: int, k2: int)
    requires
        first_invalid(s, k1),
        first_invalid(s, k2),
    ensures
        k1 == k2,
{
    if k1 < k2 {
        assert(is_residue(s[k1]));
    } else if k2 < k1 {
        assert(is_residue(s[k2]));
    }
}

pub open spec fn invalid_in(s: Seq<char>, which: u8) -> AlignmentError {
    let k = choose|k: int| first_invalid(s, k);
    AlignmentError::InvalidResidue { sequence: which, index: k as usize, residue: s[k] }
}

/// The error that the inputs themselves call for, if any.
pub open spec fn input_error(a: Seq<char>, b: Seq<char>) -> Option<AlignmentError> {
    if a.len() == 0 {
        Some(AlignmentError::EmptySequence { sequence: 1 })
    } else if b.len() == 0 {
        Some(AlignmentError::EmptySequence { sequence: 2 })
    } else if !all_residues(a) {
        Some(invalid_in(a, 1))
    } else if !all_residues(b) {
        Some(invalid_in(b, 2))
    } else {
        None
    }
}

pub open spec fn score_bound() -> int {
    0x8000_0000_0000_0000
}

/// Each cell is at most `(i + j) * 2^63` away from zero.
proof fn lemma_dp_bound(m: AlignmentMethod, a: Seq<char>, b: Seq<char>, sc: ScoringParams, i: int, j: int)
    requires
        0 <= i <= a.len(),
        0 <= j <= b.len(),
    ensures
        -(i + j) * score_bound() <= dp(m, a, b, sc, i, j) <= (i + j) * score_bound(),
    decreases i + j,
{
    let g = sc.gap_open_penalty as int;
    let k = score_bound();
    if i == 0 && j == 0 {
    } else if i == 0 {
        assert(-(j * k) <= j * g <= j * k) by (nonlinear_arith)
            requires
                0 <= j,
                -k <= g <= k,
        ;
    } else if j == 0 {
        assert(-(i * k) <= i * g <= i * k) by (nonlinear_arith)
            requires
                0 <= i,
                -k <= g <= k,
        ;
    } else {
        lemma_dp_bound(m, a, b, sc, i - 1, j - 1);
        lemma_dp_bound(m, a, b, sc, i - 1, j);
        lemma_dp_bound(m, a, b, sc, i, j - 1);
    }
}

/// Row `i` of the score matrix, given row `i - 1`.
fn fill_row(
    m: AlignmentMethod,
    a: &Vec<char>,
    b: &Vec<char>,
    sc: ScoringParams,
    prev: &Vec<i128>,
    i: usize,
) -> (r: Vec<i128>)
    requires
        i <= a@.len(),
        a@.len() > 0,
        a@.len() + b@.len() <= usize::MAX,
        i > 0 ==> prev@.len() == b@.len() + 1,
        i > 0 ==> forall|q: int| 0 <= q <= b@.len() ==> prev@[q] == dp(m, a@, b@, sc, i - 1, q),
    ensures
        r@.len() == b@.len() + 1,
        forall|q: int| 0 <= q <= b@.len() ==> r@[q] == dp(m, a@, b@, sc, i as int, q),
{
    let gap = sc.gap_open_penalty as i128;
    let mut row: Vec<i128> = Vec::new();
    let mut j: usize = 0;
    while j <= b.len()
        invariant
            j <= b@.len() + 1,
            row@.len() == j,
            i <= a@.len(),
            a@.len() > 0,
            a@.len() + b@.len() <= usize::MAX,
            gap == sc.gap_open_penalty,
            i > 0 ==> prev@.len() == b@.len() + 1,
            i > 0 ==> forall|q: int| 0 <= q <= b@.len() ==> prev@[q] == dp(m, a@, b@, sc, i - 1, q),
            forall|q: int| 0 <= q < j ==> row@[q] == dp(m, a@, b@, sc, i as int, q),
        decreases b@.len() + 1 - j,
    {
        let v: i128 = if i == 0 && j == 0 {
            0
        } else if i == 0 {
            if m == AlignmentMethod::Global {
                proof {
                    lemma_dp_bound(m, a@, b@, sc, 0, j as int);
                }
                (j as i128) * gap
            } else {
                0
            }
        } else if j == 0 {
            if m == AlignmentMethod::Global {
                proof {
                    lemma_dp_bound(m, a@, b@, sc, i as int, 0);
                }
                (i as i128) * gap
            } else {
                0
            }
        } else {
            proof {
                lemma_dp_bound(m, a@, b@, sc, i - 1, j - 1);
                lemma_dp_bound(m, a@, b@, sc, i - 1, j as int);
                lemma_dp_bound(m, a@, b@, sc, i as int, j - 1);
            }
            let s: i128 = if fold_exec(a[i - 1]) == fold_exec(b[j - 1]) {
                sc.match_score as i128
            } else {
                sc.mismatch_penalty as i128
            };
            let d = prev[j - 1] + s;
            let u = prev[j] + gap;
            let l = row[j - 1] + gap;
            let best = if d >= u && d >= l {
                d
            } else if u >= l {
                u
            } else {
                l
            };
            if m == AlignmentMethod::Local && best < 0 {
                0
            } else {
                best
            }
        };
        row.push(v);
        j = j + 1;
    }
    row
}

/// The whole score matrix: `(|a| + 1)` rows of `(|b| + 1)` cells.
fn fill_matrix(m: AlignmentMethod, a: &Vec<char>, b: &Vec<char>, sc: ScoringParams) -> (r: Vec<Vec<i128>>)
    requires
        a@.len() + b@.len() <= usize::MAX,
        a@.len() > 0,
        b@.len() > 0,
    ensures
        r@.len() == a@.len() + 1,
        forall|p: int| 0 <= p <= a@.len() ==> (#[trigger] r@[p])@.len() == b@.len() + 1,
        forall|p: int, q: int|
            0 <= p <= a@.len() && 0 <= q <= b@.len() ==> #[trigger] r@[p]@[q] == dp(m, a@, b@, sc, p, q),
{
    let mut mat: Vec<Vec<i128>> = Vec::new();
    let mut prev: Vec<i128> = Vec::new();
    let mut i: usize = 0;
    while i <= a.len()
        invariant
            i <= a@.len() + 1,
            mat@.len() == i,
            a@.len() + b@.len() <= usize::MAX,
            a@.len() > 0,
            b@.len() > 0,
            i > 0 ==> prev@.len() == b@.len() + 1,
            i > 0 ==> forall|q: int| 0 <= q <= b@.len() ==> prev@[q] == dp(m, a@, b@, sc, i - 1, q),
            forall|p: int| 0 <= p < i ==> (#[trigger] mat@[p])@.len() == b@.len() + 1,
            forall|p: int, q: int|
                0 <= p < i && 0 <= q <= b@.len() ==> #[trigger] mat@[p]@[q] == dp(m, a@, b@, sc, p, q),
        decreases a@.len() + 1 - i,
    {
        let row = fill_row(m, a, b, sc, &prev, i);
        mat.push(row.clone());
        prev = row;
        i = i + 1;
    }
    mat
}

pub open spec fn matrix_holds(
    m: AlignmentMethod,
    a: Seq<char>,
    b: Seq<char>,
    sc: ScoringParams,
    mat: Seq<Vec<i128>>,
) -> bool {
    &&& mat.len() == a.len() + 1
    &&& forall|p: int| 0 <= p <= a.len() ==> (#[trigger] mat[p])@.len() == b.len() + 1
    &&& forall|p: int, q: int|
        0 <= p <= a.len() && 0 <= q <= b.len() ==> #[trigger] mat[p]@[q] == dp(m, a, b, sc, p, q)
}

/// The cell where the traceback begins.
fn find_start(
    m: AlignmentMethod,
    a: &Vec<char>,
    b: &Vec<char>,
    sc: ScoringParams,
    mat: &Vec<Vec<i128>>,
) -> (r: (usize, usize))
    requires
        a@.len() > 0,
        b@.len() > 0,
        a@.len() + b@.len() <= usize::MAX,
        matrix_holds(m, a@, b@, sc, mat@),
    ensures
        is_start(m, a@, b@, sc, r.0 as int, r.1 as int),
{
    let n1 = a.len();
    let n2 = b.len();
    if m == AlignmentMethod::Global {
        return (n1, n2);
    }
    let mut bi: usize = 0;
    let mut bj: usize = if m == AlignmentMethod::Local {
        0
    } else {
        n2
    };
    let mut best: i128 = mat[bi][bj];
    let mut i: usize = 0;
    while i <= n1
        invariant
            m != AlignmentMethod::Global,
            n1 == a@.len(),
            n2 == b@.len(),
            n1 > 0,
            n2 > 0,
            n1 + n2 <= usize::MAX,
            matrix_holds(m, a@, b@, sc, mat@),
            i <= n1 + 1,
            candidate(m, n1 as int, n2 as int, bi as int, bj as int),
            best == dp(m, a@, b@, sc, bi as int, bj as int),
            forall|p: int, q: int|
                #[trigger] candidate(m, n1 as int, n2 as int, p, q) && p < i ==> dp(m, a@, b@, sc, p, q)
                    <= best,
            forall|p: int, q: int|
                #[trigger] candidate(m, n1 as int, n2 as int, p, q) && row_major_before(
                    p,
                    q,
                    bi as int,
                    bj as int,
                ) ==> dp(m, a@, b@, sc, p, q) < best,
        decreases n1 + 1 - i,
    {
        let mut j: usize = 0;
        while j <= n2
            invariant
                m != AlignmentMethod::Global,
                n1 == a@.len(),
                n2 == b@.len(),
                n1 > 0,
                n2 > 0,
                n1 + n2 <= usize::MAX,
                matrix_holds(m, a@, b@, sc, mat@),
                i <= n1,
                j <= n2 + 1,
                candidate(m, n1 as int, n2 as int, bi as int, bj as int),
                best == dp(m, a@, b@, sc, bi as int, bj as int),
                forall|p: int, q: int|
                    #[trigger] candidate(m, n1 as int, n2 as int, p, q) && (p < i || (p == i && q
                        < j)) ==> dp(m, a@, b@, sc, p, q) <= best,
                forall|p: int, q: int|
                    #[trigger] candidate(m, n1 as int, n2 as int, p, q) && row_major_before(
                        p,
                        q,
                        bi as int,
                        bj as int,
                    ) ==> dp(m, a@, b@, sc, p, q) < best,
            decreases n2 + 1 - j,
        {
            let is_candidate = m == AlignmentMethod::Local || i == n1 || j == n2;
            assert(is_candidate == candidate(m, n1 as int, n2 as int, i as int, j as int));
            if is_candidate && mat[i][j] > best {
                bi = i;
                bj = j;
                best = mat[i][j];
            }
            j = j + 1;
        }
        i = i + 1;
    }
    (bi, bj)
}

fn reverse_chars(v: &Vec<char>) -> (r: Vec<char>)
    ensures
        r@.len() == v@.len(),
        forall|k: int| 0 <= k < v@.len() ==> r@[k] == v@[v@.len() - 1 - k],
{
    let mut r: Vec<char> = Vec::new();
    let mut k: usize = v.len();
    while k > 0
        invariant
            k <= v@.len(),
            r@.len() == v@.len() - k,
            forall|t: int| 0 <= t < r@.len() ==> r@[t] == v@[v@.len() - 1 - t],
        decreases k,
    {
        k = k - 1;
        r.push(v[k]);
    }
    r
}

/// Follows the steps back from `(ei, ej)` until the method's stopping cell.
fn traceback(
    m: AlignmentMethod,
    a: &Vec<char>,
    b: &Vec<char>,
    sc: ScoringParams,
    mat: &Vec<Vec<i128>>,
    ei: usize,
    ej: usize,
) -> (r: (Vec<char>, Vec<char>, usize, usize))
    requires
        a@.len() + b@.len() <= usize::MAX,
        matrix_holds(m, a@, b@, sc, mat@),
        ei <= a@.len(),
        ej <= b@.len(),
    ensures
        trace(m, a@, b@, sc, ei as int, ej as int) == (r.0@, r.1@, r.2 as int, r.3 as int),
{
    let gap = sc.gap_open_penalty as i128;
    let mut i: usize = ei;
    let mut j: usize = ej;
    let mut rev1: Vec<char> = Vec::new();
    let mut rev2: Vec<char> = Vec::new();
    let ghost mut g1: Seq<char> = Seq::empty();
    let ghost mut g2: Seq<char> = Seq::empty();
    assert(trace(m, a@, b@, sc, i as int, j as int).0 + g1 =~= trace(m, a@, b@, sc, i as int, j as int).0);
    assert(trace(m, a@, b@, sc, i as int, j as int).1 + g2 =~= trace(m, a@, b@, sc, i as int, j as int).1);
    loop
        invariant
            a@.len() + b@.len() <= usize::MAX,
            matrix_holds(m, a@, b@, sc, mat@),
            gap == sc.gap_open_penalty,
            i <= a@.len(),
            j <= b@.len(),
            ({
                let whole = trace(m, a@, b@, sc, ei as int, ej as int);
                let rest = trace(m, a@, b@, sc, i as int, j as int);
                whole == (rest.0 + g1, rest.1 + g2, rest.2, rest.3)
            }),
            rev1@.len() == g1.len(),
            rev2@.len() == g2.len(),
            forall|k: int| 0 <= k < g1.len() ==> rev1@[k] == g1[g1.len() - 1 - k],
            forall|k: int| 0 <= k < g2.len() ==> rev2@[k] == g2[g2.len() - 1 - k],
        decreases i + j,
    {
        let here = mat[i][j];
        let stop = match m {
            AlignmentMethod::Global => i == 0 && j == 0,
            AlignmentMethod::Local => here == 0,
            AlignmentMethod::SemiGlobal => i == 0 || j == 0,
        };
        if stop || (i == 0 && j == 0) {
            let x = reverse_chars(&rev1);
            let y = reverse_chars(&rev2);
            assert(x@ =~= g1);
            assert(y@ =~= g2);
            return (x, y, i, j);
        }
        let ghost rest = trace(m, a@, b@, sc, i as int, j as int);
        let diagonal = if i > 0 && j > 0 {
            proof {
                lemma_dp_bound(m, a@, b@, sc, i - 1, j - 1);
            }
            let s: i128 = if fold_exec(a[i - 1]) == fold_exec(b[j - 1]) {
                sc.match_score as i128
            } else {
                sc.mismatch_penalty as i128
            };
            here == mat[i - 1][j - 1] + s
        } else {
            false
        };
        let up = if diagonal {
            false
        } else if i > 0 {
            if j == 0 {
                true
            } else {
                proof {
                    lemma_dp_bound(m, a@, b@, sc, i - 1, j as int);
                }
                here == mat[i - 1][j] + gap
            }
        } else {
            false
        };
        if diagonal {
            let ghost t = trace(m, a@, b@, sc, i - 1, j - 1);
            assert(rest == (t.0.push(a@[i - 1]), t.1.push(b@[j - 1]), t.2, t.3));
            assert(t.0.push(a@[i - 1]) + g1 =~= t.0 + (seq![a@[i - 1]] + g1));
            assert(t.1.push(b@[j - 1]) + g2 =~= t.1 + (seq![b@[j - 1]] + g2));
            rev1.push(a[i - 1]);
            rev2.push(b[j - 1]);
            proof {
                g1 = seq![a@[i - 1]] + g1;
                g2 = seq![b@[j - 1]] + g2;
            }
            i = i - 1;
            j = j - 1;
        } else if up {
            let ghost t = trace(m, a@, b@, sc, i - 1, j as int);
            assert(rest == (t.0.push(a@[i - 1]), t.1.push(GAP), t.2, t.3));
            assert(t.0.push(a@[i - 1]) + g1 =~= t.0 + (seq![a@[i - 1]] + g1));
            assert(t.1.push(GAP) + g2 =~= t.1 + (seq![GAP] + g2));
            rev1.push(a[i - 1]);
            rev2.push(GAP);
            proof {
                g1 = seq![a@[i - 1]] + g1;
                g2 = seq![GAP] + g2;
            }
            i = i - 1;
        } else {
            let ghost t = trace(m, a@, b@, sc, i as int, j - 1);
            assert(rest == (t.0.push(GAP), t.1.push(b@[j - 1]), t.2, t.3));
            assert(t.0.push(GAP) + g1 =~= t.0 + (seq![GAP] + g1));
            assert(t.1.push(b@[j - 1]) + g2 =~= t.1 + (seq![b@[j - 1]] + g2));
            rev1.push(GAP);
            rev2.push(b[j - 1]);
            proof {
                g1 = seq![GAP] + g1;
                g2 = seq![b@[j - 1]] + g2;
            }
            j = j - 1;
        }
    }
}

/// The two aligned rows of a traceback have the same length.
pub proof fn lemma_trace_rows(m: AlignmentMethod, a: Seq<char>, b: Seq<char>, sc: ScoringParams, i: int, j: int)
    ensures
        trace(m, a, b, sc, i, j).0.len() == trace(m, a, b, sc, i, j).1.len(),
    decreases i + j,
{
    if !(stops(m, a, b, sc, i, j) || (i <= 0 && j <= 0) || i < 0 || j < 0) {
        let s = step(m, a, b, sc, i, j);
        if s == 0 {
            lemma_trace_rows(m, a, b, sc, i - 1, j - 1);
        } else if s == 1 {
            lemma_trace_rows(m, a, b, sc, i - 1, j);
        } else {
            lemma_trace_rows(m, a, b, sc, i, j - 1);
        }
    }
}

fn column_matches(x: &Vec<char>, y: &Vec<char>) -> (r: usize)
    requires
        x@.len() == y@.len(),
    ensures
        r == count_matches(x@, y@),
{
    let mut cnt: usize = 0;
    let mut k: usize = 0;
    while k < x.len()
        invariant
            x@.len() == y@.len(),
            k <= x@.len(),
            cnt <= k,
            cnt == count_matches(x@.subrange(0, k as int), y@.subrange(0, k as int)),
        decreases x@.len() - k,
    {
        proof {
            let tx = x@.subrange(0, k as int + 1);
            let ty = y@.subrange(0, k as int + 1);
            assert(tx.drop_last() =~= x@.subrange(0, k as int));
            assert(ty.drop_last() =~= y@.subrange(0, k as int));
        }
        if x[k] != GAP && y[k] != GAP && fold_exec(x[k]) == fold_exec(y[k]) {
            cnt = cnt + 1;
        }
        k = k + 1;
    }
    assert(x@.subrange(0, x@.len() as int) =~= x@);
    assert(y@.subrange(0, y@.len() as int) =~= y@);
    cnt
}

/// An aligned row with its gap symbols removed.
pub open spec fn ungapped(x: Seq<char>) -> Seq<char>
    decreases x.len(),
{
    if x.len() == 0 {
        Seq::empty()
    } else if x.last() == GAP {
        ungapped(x.drop_last())
    } else {
        ungapped(x.drop_last()).push(x.last())
    }
}

/// A traceback from `(i, j)` spells out `a[s1..i]` and `b[s2..j]` once its
/// gaps are removed, where `(s1, s2)` is the cell where it stops.
pub proof fn lemma_trace_spells_segments(
    m: AlignmentMethod,
    a: Seq<char>,
    b: Seq<char>,
    sc: ScoringParams,
    i: int,
    j: int,
)
    requires
        all_residues(a),
        all_residues(b),
        0 <= i <= a.len(),
        0 <= j <= b.len(),
    ensures
        ({
            let t = trace(m, a, b, sc, i, j);
            &&& 0 <= t.2 <= i
            &&& 0 <= t.3 <= j
            &&& ungapped(t.0) == a.subrange(t.2, i)
            &&& ungapped(t.1) == b.subrange(t.3, j)
        }),
    decreases i + j,
{
    let t = trace(m, a, b, sc, i, j);
    if stops(m, a, b, sc, i, j) || (i <= 0 && j <= 0) || i < 0 || j < 0 {
        assert(a.subrange(i, i) =~= Seq::<char>::empty());
        assert(b.subrange(j, j) =~= Seq::<char>::empty());
    } else {
        let s = step(m, a, b, sc, i, j);
        if s == 0 {
            lemma_trace_spells_segments(m, a, b, sc, i - 1, j - 1);
            let u = trace(m, a, b, sc, i - 1, j - 1);
            assert(is_residue(a[i - 1]) && is_residue(b[j - 1]));
            assert(t.0.drop_last() =~= u.0);
            assert(t.1.drop_last() =~= u.1);
            assert(a.subrange(u.2, i - 1).push(a[i - 1]) =~= a.subrange(u.2, i));
            assert(b.subrange(u.3, j - 1).push(b[j - 1]) =~= b.subrange(u.3, j));
        } else if s == 1 {
            lemma_trace_spells_segments(m, a, b, sc, i - 1, j);
            let u = trace(m, a, b, sc, i - 1, j);
            assert(is_residue(a[i - 1]));
            assert(t.0.drop_last() =~= u.0);
            assert(t.1.drop_last() =~= u.1);
            assert(a.subrange(u.2, i - 1).push(a[i - 1]) =~= a.subrange(u.2, i));
        } else {
            lemma_trace_spells_segments(m, a, b, sc, i, j - 1);
            let u = trace(m, a, b, sc, i, j - 1);
            assert(is_residue(b[j - 1]));
            assert(t.0.drop_last() =~= u.0);
            assert(t.1.drop_last() =~= u.1);
            assert(b.subrange(u.3, j - 1).push(b[j - 1]) =~= b.subrange(u.3, j));
        }
    }
}

/// Score of two aligned rows, column by column: a gap column costs the gap
/// penalty, any other the substitution score.
pub open spec fn column_score(x: Seq<char>, y: Seq<char>, sc: ScoringParams) -> int
    decreases x.len(),
{
    if x.len() == 0 || y.len() == 0 {
        0
    } else {
        column_score(x.drop_last(), y.drop_last(), sc) + if x.last() == GAP || y.last() == GAP {
            sc.gap_open_penalty as int
        } else {
            sub_score(sc, x.last(), y.last())
        }
    }
}

/// The rows that a traceback from `(i, j)` yields score exactly `dp(i, j)`.
pub proof fn lemma_trace_scores_cell(
    m: AlignmentMethod,
    a: Seq<char>,
    b: Seq<char>,
    sc: ScoringParams,
    i: int,
    j: int,
)
    requires
        all_residues(a),
        all_residues(b),
        0 <= i <= a.len(),
        0 <= j <= b.len(),
    ensures
        column_score(trace(m, a, b, sc, i, j).0, trace(m, a, b, sc, i, j).1, sc) == dp(m, a, b, sc, i, j),
    decreases i + j,
{
    let t = trace(m, a, b, sc, i, j);
    let g = sc.gap_open_penalty as int;
    if stops(m, a, b, sc, i, j) || (i <= 0 && j <= 0) || i < 0 || j < 0 {
    } else {
        let s = step(m, a, b, sc, i, j);
        if s == 0 {
            lemma_trace_scores_cell(m, a, b, sc, i - 1, j - 1);
            let u = trace(m, a, b, sc, i - 1, j - 1);
            assert(is_residue(a[i - 1]) && is_residue(b[j - 1]));
            assert(t.0.drop_last() =~= u.0);
            assert(t.1.drop_last() =~= u.1);
        } else if s == 1 {
            lemma_trace_scores_cell(m, a, b, sc, i - 1, j);
            let u = trace(m, a, b, sc, i - 1, j);
            assert(t.0.drop_last() =~= u.0);
            assert(t.1.drop_last() =~= u.1);
            if j == 0 {
                assert(i * g == (i - 1) * g + g) by (nonlinear_arith);
                assert(0 * g == 0) by (nonlinear_arith);
            }
        } else {
            lemma_trace_scores_cell(m, a, b, sc, i, j - 1);
            let u = trace(m, a, b, sc, i, j - 1);
            assert(t.0.drop_last() =~= u.0);
            assert(t.1.drop_last() =~= u.1);
            if i == 0 {
                assert(j * g == (j - 1) * g + g) by (nonlinear_arith);
                assert(0 * g == 0) by (nonlinear_arith);
            }
        }
    }
}

/// What a successful alignment of `a` and `b` holds.
pub open spec fn alignment_holds(
    res: AlignmentResult,
    a: Seq<char>,
    b: Seq<char>,
    method: AlignmentMethod,
    sc: ScoringParams,
) -> bool {
    &&& res.method == method
    &&& is_start(method, a, b, sc, res.end1 as int, res.end2 as int)
    &&& res.score == dp(method, a, b, sc, res.end1 as int, res.end2 as int)
    &&& res.score == column_score(res.aligned_seq1@, res.aligned_seq2@, sc)
    &&& trace(method, a, b, sc, res.end1 as int, res.end2 as int) == (
        res.aligned_seq1@,
        res.aligned_seq2@,
        res.start1 as int,
        res.start2 as int,
    )
    &&& res.matches == count_matches(res.aligned_seq1@, res.aligned_seq2@)
    &&& res.aligned_seq1@.len() == res.aligned_seq2@.len()
    &&& res.start1 <= res.end1 <= a.len()
    &&& res.start2 <= res.end2 <= b.len()
    &&& ungapped(res.aligned_seq1@) == a.subrange(res.start1 as int, res.end1 as int)
    &&& ungapped(res.aligned_seq2@) == b.subrange(res.start2 as int, res.end2 as int)
}

pub open spec fn fits_i64(v: int) -> bool {
    i64::MIN <= v <= i64::MAX
}

/// Aligns the residues of two sequences by dynamic programming.
///
/// Residues compare case-insensitively. `Global` aligns both sequences end to
/// end; `Local` aligns the best-scoring pair of segments, never scoring below
/// zero; `SemiGlobal` leaves leading and trailing gaps free. The traceback
/// starts at the best cell (the first in row-major order among equals) and
/// prefers a diagonal step, then a gap in the second sequence.
pub fn align(seq1: &Sequence, seq2: &Sequence, method: AlignmentMethod, scoring: ScoringParams) -> (r:
    Result<AlignmentResult, AlignmentError>)
    requires
        seq1.residues@.len() + seq2.residues@.len() <= usize::MAX,
    ensures
        ({
            let a = seq1.residues@;
            let b = seq2.residues@;
            match r {
                Ok(res) => input_error(a, b) is None && alignment_holds(res, a, b, method, scoring),
                Err(e) => match input_error(a, b) {
                    Some(x) => e == x,
                    None => e == AlignmentError::ScoreOverflow && exists|i: int, j: int|
                        is_start(method, a, b, scoring, i, j) && !fits_i64(
                            dp(method, a, b, scoring, i, j),
                        ),
                },
            }
        }),
{
    let a = chars_of(seq1.residues.as_str());
    let b = chars_of(seq2.residues.as_str());
    if a.len() == 0 {
        return Err(AlignmentError::EmptySequence { sequence: 1 });
    }
    if b.len() == 0 {
        return Err(AlignmentError::EmptySequence { sequence: 2 });
    }
    if let Some(k) = find_invalid(&a) {
        proof {
            let c = choose|t: int| first_invalid(a@, t);
            lemma_first_invalid_unique(a@, c, k as int);
        }
        return Err(AlignmentError::InvalidResidue { sequence: 1, index: k, residue: a[k] });
    }
    if let Some(k) = find_invalid(&b) {
        proof {
            let c = choose|t: int| first_invalid(b@, t);
            lemma_first_invalid_unique(b@, c, k as int);
        }
        return Err(AlignmentError::InvalidResidue { sequence: 2, index: k, residue: b[k] });
    }
    let mat = fill_matrix(method, &a, &b, scoring);
    let (ei, ej) = find_start(method, &a, &b, scoring, &mat);
    let best = mat[ei][ej];
    if best < i64::MIN as i128 || best > i64::MAX as i128 {
        return Err(AlignmentError::ScoreOverflow);
    }
    let (x, y, si, sj) = traceback(method, &a, &b, scoring, &mat, ei, ej);
    proof {
        lemma_trace_rows(method, a@, b@, scoring, ei as int, ej as int);
        lemma_trace_spells_segments(method, a@, b@, scoring, ei as int, ej as int);
        lemma_trace_scores_cell(method, a@, b@, scoring, ei as int, ej as int);
    }
    let matches = column_matches(&x, &y);
    Ok(
        AlignmentResult {
            method,
            score: best as i64,
            aligned_seq1: string_of(&x),
            aligned_seq2: string_of(&y),
            start1: si,
            end1: ei,
            start2: sj,
            end2: ej,
            matches,
        },
    )
}

/// Every cell of the local-alignment matrix is non-negative, so the score of a
/// local alignment, read at its start cell, is never negative.
pub proof fn law_local_score_nonnegative(a: Seq<char>, b: Seq<char>, sc: ScoringParams, i: int, j: int)
    ensures
        dp(AlignmentMethod::Local, a, b, sc, i, j) >= 0,
{
}

/// Match `+1`, mismatch `-1`, gap `-1`.
pub open spec fn unit_scoring() -> ScoringParams {
    ScoringParams {
        match_score: 1i64,
        mismatch_penalty: -1i64,
        gap_open_penalty: -1i64,
        gap_extend_penalty: -1i64,
    }
}

/// Under unit scoring a global cell is at most `2 * min(i, j) - max(i, j)`.
proof fn lemma_unit_global_upper(a: Seq<char>, b: Seq<char>, i: int, j: int)
    requires
        0 <= i <= a.len(),
        0 <= j <= b.len(),
    ensures
        dp(AlignmentMethod::Global, a, b, unit_scoring(), i, j) <= if i <= j {
            2 * i - j
        } else {
            2 * j - i
        },
    decreases i + j,
{
    if i > 0 && j > 0 {
        lemma_unit_global_upper(a, b, i - 1, j - 1);
        lemma_unit_global_upper(a, b, i - 1, j);
        lemma_unit_global_upper(a, b, i, j - 1);
    }
}

/// Under unit scoring the global diagonal cell `(i, i)` of `s` against itself is `i`,
/// and its traceback is the diagonal.
proof fn lemma_unit_global_self(s: Seq<char>, i: int)
    requires
        0 <= i <= s.len(),
    ensures
        dp(AlignmentMethod::Global, s, s, unit_scoring(), i, i) == i,
        trace(AlignmentMethod::Global, s, s, unit_scoring(), i, i) == (
            s.subrange(0, i),
            s.subrange(0, i),
            0int,
            0int,
        ),
    decreases i,
{
    let m = AlignmentMethod::Global;
    let sc = unit_scoring();
    if i > 0 {
        lemma_unit_global_self(s, i - 1);
        lemma_unit_global_upper(s, s, i - 1, i);
        lemma_unit_global_upper(s, s, i, i - 1);
        assert(dp(m, s, s, sc, i, i) == i);
        assert(step(m, s, s, sc, i, i) == 0);
        assert(s.subrange(0, i - 1).push(s[i - 1]) =~= s.subrange(0, i));
    } else {
        assert(s.subrange(0, 0) =~= Seq::<char>::empty());
    }
}

/// A row of residues matches itself in every column.
proof fn lemma_self_matches(s: Seq<char>)
    requires
        all_residues(s),
    ensures
        count_matches(s, s) == s.len(),
    decreases s.len(),
{
    if s.len() > 0 {
        let t = s.drop_last();
        assert(all_residues(t)) by {
            assert forall|k: int| 0 <= k < t.len() implies is_residue(#[trigger] t[k]) by {
                assert(t[k] == s[k]);
            }
        }
        lemma_self_matches(t);
        assert(is_residue(s[s.len() - 1]));
    }
}

/// Aligning a sequence globally against itself with match `+1`, mismatch `-1`
/// and gap `-1` starts at the corner, scores its length, and matches in every
/// column of the whole sequence: identity one.
pub proof fn law_global_self_alignment(s: Seq<char>)
    requires
        s.len() > 0,
        all_residues(s),
    ensures
        ({
            let m = AlignmentMethod::Global;
            let sc = unit_scoring();
            let n = s.len() as int;
            &&& is_start(m, s, s, sc, n, n)
            &&& dp(m, s, s, sc, n, n) == n
            &&& trace(m, s, s, sc, n, n) == (s, s, 0int, 0int)
            &&& count_matches(s, s) == n
        }),
{
    let n = s.len() as int;
    lemma_unit_global_self(s, n);
    assert(s.subrange(0, n) =~= s);
    lemma_self_matches(s);
}

/// Scoring under which a match is worth at least any other step.
pub open spec fn match_dominates(sc: ScoringParams) -> bool {
    &&& sc.match_score >= 0
    &&& sc.match_score >= sc.mismatch_penalty
    &&& sc.gap_open_penalty <= 0
}

/// With a dominant match score, a semi-global cell is at most
/// `min(i, j) * match_score`.
proof fn lemma_semi_upper(a: Seq<char>, b: Seq<char>, sc: ScoringParams, i: int, j: int)
    requires
        match_dominates(sc),
        0 <= i,
        0 <= j,
    ensures
        dp(AlignmentMethod::SemiGlobal, a, b, sc, i, j) <= i * sc.match_score,
        dp(AlignmentMethod::SemiGlobal, a, b, sc, i, j) <= j * sc.match_score,
    decreases i + j,
{
    let ms = sc.match_score as int;
    if i > 0 && j > 0 {
        lemma_semi_upper(a, b, sc, i - 1, j - 1);
        lemma_semi_upper(a, b, sc, i - 1, j);
        lemma_semi_upper(a, b, sc, i, j - 1);
        assert((i - 1) * ms + ms == i * ms) by (nonlinear_arith);
        assert((j - 1) * ms + ms == j * ms) by (nonlinear_arith);
        assert((i - 1) * ms <= i * ms) by (nonlinear_arith)
            requires
                ms >= 0,
        ;
        assert((j - 1) * ms <= j * ms) by (nonlinear_arith)
            requires
                ms >= 0,
        ;
    } else {
        assert(0 <= i * ms) by (nonlinear_arith)
            requires
                ms >= 0,
                i >= 0,
        ;
        assert(0 <= j * ms) by (nonlinear_arith)
            requires
                ms >= 0,
                j >= 0,
        ;
    }
}

/// Along the diagonal of an exact occurrence of `b[0..k]` at `a[o..o + k]`, a
/// semi-global cell reaches `k * match_score`.
proof fn lemma_semi_diagonal(a: Seq<char>, b: Seq<char>, sc: ScoringParams, o: int, k: int)
    requires
        0 <= o,
        0 <= k <= b.len(),
        o + k <= a.len(),
        forall|t: int| 0 <= t < k ==> a[o + t] == #[trigger] b[t],
    ensures
        dp(AlignmentMethod::SemiGlobal, a, b, sc, o + k, k) >= k * sc.match_score,
    decreases k,
{
    let ms = sc.match_score as int;
    if k > 0 {
        lemma_semi_diagonal(a, b, sc, o, k - 1);
        assert(a[o + k - 1] == b[k - 1]);
        assert((k - 1) * ms + ms == k * ms) by (nonlinear_arith);
    } else {
        assert(k * ms == 0) by (nonlinear_arith)
            requires
                k == 0,
        ;
    }
}

/// The same, with `a[0..k]` occurring at `b[o..o + k]`.
proof fn lemma_semi_diagonal_in_second(a: Seq<char>, b: Seq<char>, sc: ScoringParams, o: int, k: int)
    requires
        0 <= o,
        0 <= k <= a.len(),
        o + k <= b.len(),
        forall|t: int| 0 <= t < k ==> b[o + t] == #[trigger] a[t],
    ensures
        dp(AlignmentMethod::SemiGlobal, a, b, sc, k, o + k) >= k * sc.match_score,
    decreases k,
{
    let ms = sc.match_score as int;
    if k > 0 {
        lemma_semi_diagonal_in_second(a, b, sc, o, k - 1);
        assert(b[o + k - 1] == a[k - 1]);
        assert((k - 1) * ms + ms == k * ms) by (nonlinear_arith);
    } else {
        assert(k * ms == 0) by (nonlinear_arith)
            requires
                k == 0,
        ;
    }
}

/// When one sequence occurs exactly inside the other at offset `o`, and a match
/// scores at least a mismatch, at least zero, and at least a gap that costs,
/// the semi-global start cell scores `length of the shorter * match_score`:
/// no end gap is charged.
pub proof fn law_semi_global_substring(
    a: Seq<char>,
    b: Seq<char>,
    sc: ScoringParams,
    o: int,
    i: int,
    j: int,
)
    requires
        match_dominates(sc),
        0 <= o,
        (o + b.len() <= a.len() && forall|t: int| 0 <= t < b.len() ==> a[o + t] == #[trigger] b[t])
            || (o + a.len() <= b.len() && forall|t: int| 0 <= t < a.len() ==> b[o + t] == #[trigger] a[t]),
        is_start(AlignmentMethod::SemiGlobal, a, b, sc, i, j),
    ensures
        dp(AlignmentMethod::SemiGlobal, a, b, sc, i, j) == (if b.len() <= a.len() && o + b.len()
            <= a.len() && forall|t: int| 0 <= t < b.len() ==> a[o + t] == #[trigger] b[t] {
            b.len() * sc.match_score
        } else {
            a.len() * sc.match_score
        }),
{
    let m = AlignmentMethod::SemiGlobal;
    let n1 = a.len() as int;
    let n2 = b.len() as int;
    lemma_semi_upper(a, b, sc, i, j);
    let ms = sc.match_score as int;
    if b.len() <= a.len() && o + b.len() <= a.len() && forall|t: int|
        0 <= t < b.len() ==> a[o + t] == #[trigger] b[t] {
        lemma_semi_diagonal(a, b, sc, o, n2);
        assert(candidate(m, n1, n2, o + n2, n2));
        assert(j * ms <= n2 * ms) by (nonlinear_arith)
            requires
                j <= n2,
                ms >= 0,
        ;
    } else {
        assert(o + a.len() <= b.len() && forall|t: int| 0 <= t < a.len() ==> b[o + t] == #[trigger] a[t]);
        lemma_semi_diagonal_in_second(a, b, sc, o, n1);
        assert(candidate(m, n1, n2, n1, o + n1));
        assert(i * ms <= n1 * ms) by (nonlinear_arith)
            requires
                i <= n1,
                ms >= 0,
        ;
    }
}

} // verus!
