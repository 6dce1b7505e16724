use vstd::prelude::*;

use crate::constants::{CoverageMethod, ErrorKind};

verus! {

/// A half-open, 0-based genomic interval `[start, end)` on one chromosome.
pub struct GenomicRegion {
    pub chromosome: String,
    pub start: u64,
    pub end: u64,
}

/// The reference spans that one aligned read covers, sorted by start.
pub struct AlignmentInterval {
    pub chromosome: String,
    pub covered_spans: Vec<(u64, u64)>,
}

/// Window size and step for the windowed coverage methods.
#[derive(Clone, Copy, Debug, PartialEq, Eq, Structural)]
pub struct WindowParams {
    pub window_size: u64,
    pub step_size: u64,
}

/// One entry of a coverage profile: the window `[position, position + width)`
/// and the summed per-base depth over it. The mean depth is
/// `depth_sum / width`; for per-base profiles `width` is one.
#[derive(Clone, Copy, Debug, PartialEq, Eq, Structural)]
pub struct CoveragePoint {
    pub position: u64,
    pub depth_sum: u128,
    pub width: u64,
}

/// The depth profile over a region, with the number of spans that were
/// discarded because their start was not below their end.
pub struct CoverageProfile {
    pub method: CoverageMethod,
    pub region: GenomicRegion,
    pub points: Vec<CoveragePoint>,
    pub skipped_spans: usize,
}

#[derive(Clone, Copy, Debug, PartialEq, Eq, Structural)]
pub enum CoverageError {
    /// The region's start is not below its end.
    InvalidRegion,
    /// `window_size` is zero.
    InvalidWindowSize,
    /// `step_size` is zero or larger than `window_size`.
    InvalidStepSize,
    /// No region was given and the intervals lie on more than one chromosome.
    MixedChromosomes,
    /// No well-formed span falls in the effective region.
    EmptyInput,
}

impl CoverageError {
    pub fn kind(&self) -> (r: ErrorKind)
        ensures
            r == (match self {
                CoverageError::EmptyInput => ErrorKind::InputError,
                _ => ErrorKind::FormatError,
            }),
    {
        match self {
            CoverageError::EmptyInput => ErrorKind::InputError,
            _ => ErrorKind::FormatError,
        }
    }
}

/// What a profile holds, as mathematical values.
pub struct ProfileView {
    pub method: CoverageMethod,
    pub chromosome: Seq<char>,
    pub start: u64,
    pub end: u64,
    pub points: Seq<CoveragePoint>,
    pub skipped: nat,
}

impl CoverageProfile {
    pub open spec fn view(&self) -> ProfileView {
        ProfileView {
            method: self.method,
            chromosome: self.region.chromosome@,
            start: self.region.start,
            end: self.region.end,
            points: self.points@,
            skipped: self.skipped_spans as nat,
        }
    }
}

pub open spec fn span_ok(sp: (u64, u64)) -> bool {
    sp.0 < sp.1
}

/// All spans of the intervals on `chrom` (of every interval when `chrom` is `None`),
/// in stream order.
pub open spec fn considered_spans(ivs: Seq<AlignmentInterval>, chrom: Option<Seq<char>>) -> Seq<
    (u64, u64),
>
    decreases ivs.len(),
{
    if ivs.len() == 0 {
        Seq::empty()
    } else {
        let rest = considered_spans(ivs.drop_last(), chrom);
        let last = ivs.last();
        if chrom is None || last.chromosome@ == chrom->0 {
            rest + last.covered_spans@
        } else {
            rest
        }
    }
}

/// The spans of `s` that are well formed (`ok`) or malformed (`!ok`), in order.
pub open spec fn spans_where(s: Seq<(u64, u64)>, ok: bool) -> Seq<(u64, u64)>
    decreases s.len(),
{
    if s.len() == 0 {
        Seq::empty()
    } else {
        let rest = spans_where(s.drop_last(), ok);
        if span_ok(s.last()) == ok {
            rest.push(s.last())
        } else {
            rest
        }
    }
}

pub open spec fn min_start(s: Seq<(u64, u64)>) -> u64
    decreases s.len(),
{
    if s.len() <= 1 {
        s[0].0
    } else {
        let m = min_start(s.drop_last());
        if s.last().0 < m {
            s.last().0
        } else {
            m
        }
    }
}

pub open spec fn max_end(s: Seq<(u64, u64)>) -> u64
    decreases s.len(),
{
    if s.len() <= 1 {
        s[0].1
    } else {
        let m = max_end(s.drop_last());
        if s.last().1 > m {
            s.last().1
        } else {
            m
        }
    }
}

/// Number of bases that a span shares with `[a, b)`.
pub open spec fn overlap(sp: (u64, u64), a: int, b: int) -> int {
    let lo = if sp.0 > a {
        sp.0 as int
    } else {
        a
    };
    let hi = if sp.1 < b {
        sp.1 as int
    } else {
        b
    };
    if lo < hi {
        hi - lo
    } else {
        0
    }
}

/// Total depth over `[a, b)`: the sum over spans of their overlap with it.
pub open spec fn coverage_sum(s: Seq<(u64, u64)>, a: int, b: int) -> int
    decreases s.len(),
{
    if s.len() == 0 {
        0
    } else {
        coverage_sum(s.drop_last(), a, b) + overlap(s.last(), a, b)
    }
}

/// Number of spans whose `[start, end)` contains `p`.
pub open spec fn spans_containing(s: Seq<(u64, u64)>, p: int) -> int
    decreases s.len(),
{
    if s.len() == 0 {
        0
    } else {
        spans_containing(s.drop_last(), p) + if s.last().0 <= p < s.last().1 {
            1int
        } else {
            0
        }
    }
}

pub open spec fn window_end(lo: int, hi: int, w: int, st: int, k: int) -> int {
    if lo + k * st + w < hi {
        lo + k * st + w
    } else {
        hi
    }
}

/// The `k`-th window of size `w`, stepping by `st` from `lo`, clipped at `hi`.
pub open spec fn window_point(s: Seq<(u64, u64)>, lo: int, hi: int, w: int, st: int, k: int) -> CoveragePoint {
    let a = lo + k * st;
    let b = window_end(lo, hi, w, st, k);
    CoveragePoint { position: a as u64, depth_sum: coverage_sum(s, a, b) as u128, width: (b - a) as u64 }
}

/// Number of windows whose start lies in `[lo, hi)`, for a step of `st`.
pub open spec fn window_count(lo: int, hi: int, st: int) -> int {
    (hi - lo - 1) / st + 1
}

pub open spec fn window_points(s: Seq<(u64, u64)>, lo: int, hi: int, w: int, st: int) -> Seq<CoveragePoint> {
    Seq::new(window_count(lo, hi, st) as nat, |k: int| window_point(s, lo, hi, w, st, k))
}

/// The window parameter that a method rejects, if any.
pub open spec fn window_error(method: CoverageMethod, wp: WindowParams) -> Option<CoverageError> {
    match method {
        CoverageMethod::PerBase => None,
        CoverageMethod::WindowAverage => if wp.window_size == 0 {
            Some(CoverageError::InvalidWindowSize)
        } else {
            None
        },
        CoverageMethod::SlidingWindow => if wp.window_size == 0 {
            Some(CoverageError::InvalidWindowSize)
        } else if wp.step_size == 0 || wp.step_size > wp.window_size {
            Some(CoverageError::InvalidStepSize)
        } else {
            None
        },
    }
}

/// All intervals lie on the chromosome of the first.
pub open spec fn one_chromosome(ivs: Seq<AlignmentInterval>) -> bool {
    forall|i: int| 0 <= i < ivs.len() ==> (#[trigger] ivs[i]).chromosome@ == ivs[0].chromosome@
}

/// Window size and step that a method uses.
pub open spec fn method_window(method: CoverageMethod, wp: WindowParams) -> (u64, u64) {
    match method {
        CoverageMethod::PerBase => (1, 1),
        CoverageMethod::WindowAverage => (wp.window_size, wp.window_size),
        CoverageMethod::SlidingWindow => (wp.window_size, wp.step_size),
    }
}

pub open spec fn some_span_meets(s: Seq<(u64, u64)>, lo: int, hi: int) -> bool {
    exists|i: int| 0 <= i < s.len() && s[i].0 < hi && lo < s[i].1
}

/// The profile that `compute_coverage` returns for these inputs, or its error.
pub open spec fn coverage_spec(
    ivs: Seq<AlignmentInterval>,
    region: Option<GenomicRegion>,
    method: CoverageMethod,
    wp: WindowParams,
) -> Result<ProfileView, CoverageError> {
    let chrom = match region {
        Some(r) => Some(r.chromosome@),
        None => None,
    };
    let all = considered_spans(ivs, chrom);
    let good = spans_where(all, true);
    let bad = spans_where(all, false);
    if region is Some && region->0.start >= region->0.end {
        Err(CoverageError::InvalidRegion)
    } else if window_error(method, wp) is Some {
        Err(window_error(method, wp)->Some_0)
    } else if region is None && !one_chromosome(ivs) {
        Err(CoverageError::MixedChromosomes)
    } else {
        let (name, lo, hi) = match region {
            Some(r) => (r.chromosome@, r.start, r.end),
            None => (ivs[0].chromosome@, min_start(good), max_end(good)),
        };
        if good.len() == 0 || !some_span_meets(good, lo as int, hi as int) {
            Err(CoverageError::EmptyInput)
        } else {
            let (w, st) = method_window(method, wp);
            Ok(
                ProfileView {
                    method,
                    chromosome: name,
                    start: lo,
                    end: hi,
                    points: window_points(good, lo as int, hi as int, w as int, st as int),
                    skipped: bad.len(),
                },
            )
        }
    }
}

pub open spec fn result_view(r: Result<CoverageProfile, CoverageError>) -> Result<
    ProfileView,
    CoverageError,
> {
    match r {
        Ok(p) => Ok(p.view()),
        Err(e) => Err(e),
    }
}


/// The part of a span inside `[lo, hi)`.
pub open spec fn clipped(sp: (u64, u64), lo: int, hi: int) -> (int, int) {
    (if sp.0 > lo {
        sp.0 as int
    } else {
        lo
    }, if sp.1 < hi {
        sp.1 as int
    } else {
        hi
    })
}

/// Number of spans whose part inside `[lo, hi)` is non-empty and starts at `p`.
pub open spec fn starts_at(s: Seq<(u64, u64)>, lo: int, hi: int, p: int) -> int
    decreases s.len(),
{
    if s.len() == 0 {
        0
    } else {
        let c = clipped(s.last(), lo, hi);
        starts_at(s.drop_last(), lo, hi, p) + if c.0 < c.1 && c.0 == p {
            1int
        } else {
            0
        }
    }
}

/// Number of spans whose part inside `[lo, hi)` is non-empty and ends at `p`.
pub open spec fn ends_at(s: Seq<(u64, u64)>, lo: int, hi: int, p: int) -> int
    decreases s.len(),
{
    if s.len() == 0 {
        0
    } else {
        let c = clipped(s.last(), lo, hi);
        ends_at(s.drop_last(), lo, hi, p) + if c.0 < c.1 && c.1 == p {
            1int
        } else {
            0
        }
    }
}

/// Inside the region, depth changes from one base to the next by the spans
/// that start there minus those that end there.
proof fn lemma_depth_step(s: Seq<(u64, u64)>, lo: int, hi: int, p: int)
    requires
        lo <= p < hi,
    ensures
        spans_containing(s, p) == (if p > lo {
            spans_containing(s, p - 1)
        } else {
            0
        }) + starts_at(s, lo, hi, p) - ends_at(s, lo, hi, p),
    decreases s.len(),
{
    if s.len() > 0 {
        lemma_depth_step(s.drop_last(), lo, hi, p);
    }
}

proof fn lemma_count_bounds(s: Seq<(u64, u64)>, lo: int, hi: int, p: int)
    ensures
        0 <= spans_containing(s, p) <= s.len(),
        0 <= starts_at(s, lo, hi, p) <= s.len(),
        0 <= ends_at(s, lo, hi, p) <= s.len(),
    decreases s.len(),
{
    if s.len() > 0 {
        lemma_count_bounds(s.drop_last(), lo, hi, p);
    }
}

/// For each offset `t` of `[lo, hi]`, how many clipped spans start and end at
/// `lo + t`.
fn boundary_counts(spans: &Vec<(u64, u64)>, lo: u64, hi: u64) -> (r: (Vec<usize>, Vec<usize>))
    requires
        lo < hi,
    ensures
        r.0@.len() == hi - lo + 1,
        r.1@.len() == hi - lo + 1,
        forall|t: int|
            0 <= t <= hi - lo ==> r.0@[t] == starts_at(spans@, lo as int, hi as int, lo + t) && r.1@[t]
                == ends_at(spans@, lo as int, hi as int, lo + t),
{
    let n = spans.len();
    let len: u64 = hi - lo;
    let mut starts: Vec<usize> = Vec::new();
    let mut ends: Vec<usize> = Vec::new();
    starts.push(0);
    ends.push(0);
    let mut k: u64 = 0;
    while k < len
        invariant
            k <= len,
            len == hi - lo,
            starts@.len() == k + 1,
            ends@.len() == k + 1,
            forall|t: int| 0 <= t <= k ==> starts@[t] == 0 && ends@[t] == 0,
        decreases len - k,
    {
        starts.push(0);
        ends.push(0);
        k = k + 1;
    }
    let cap = starts.len();
    let mut j: usize = 0;
    assert forall|t: int| 0 <= t <= len implies starts@[t] == starts_at(
        spans@.subrange(0, 0),
        lo as int,
        hi as int,
        lo + t,
    ) && ends@[t] == ends_at(spans@.subrange(0, 0), lo as int, hi as int, lo + t) by {}
    while j < n
        invariant
            n == spans@.len(),
            j <= n,
            len == hi - lo,
            lo < hi,
            cap == len + 1,
            starts@.len() == len + 1,
            ends@.len() == len + 1,
            forall|t: int|
                0 <= t <= len ==> starts@[t] == starts_at(
                    spans@.subrange(0, j as int),
                    lo as int,
                    hi as int,
                    lo + t,
                ) && ends@[t] == ends_at(spans@.subrange(0, j as int), lo as int, hi as int, lo + t),
            forall|t: int| 0 <= t <= len ==> starts@[t] <= j && ends@[t] <= j,
        decreases n - j,
    {
        let sp = spans[j];
        let c0 = if sp.0 > lo {
            sp.0
        } else {
            lo
        };
        let c1 = if sp.1 < hi {
            sp.1
        } else {
            hi
        };
        let ghost pre = spans@.subrange(0, j as int);
        let ghost nxt = spans@.subrange(0, j as int + 1);
        proof {
            assert(nxt.drop_last() =~= pre);
            assert(nxt.last() == sp);
        }
        let ghost old_s = starts@;
        let ghost old_e = ends@;
        if c0 < c1 {
            let a = (c0 - lo) as usize;
            let b = (c1 - lo) as usize;
            let sa = starts[a];
            starts.set(a, sa + 1);
            let eb = ends[b];
            ends.set(b, eb + 1);
        }
        assert forall|t: int| 0 <= t <= len implies starts@[t] == starts_at(
            nxt,
            lo as int,
            hi as int,
            lo + t,
        ) && ends@[t] == ends_at(nxt, lo as int, hi as int, lo + t) && starts@[t] <= j + 1 && ends@[t]
            <= j + 1 by {
            assert(old_s[t] == starts_at(pre, lo as int, hi as int, lo + t));
            assert(old_e[t] == ends_at(pre, lo as int, hi as int, lo + t));
        }
        j = j + 1;
    }
    assert(spans@.subrange(0, n as int) =~= spans@);
    (starts, ends)
}

/// Over `[a, b)`, the summed overlap splits at any `m` between them.
proof fn lemma_sum_split(s: Seq<(u64, u64)>, a: int, m: int, b: int)
    requires
        a <= m <= b,
    ensures
        coverage_sum(s, a, b) == coverage_sum(s, a, m) + coverage_sum(s, m, b),
        coverage_sum(s, m, b) >= 0,
    decreases s.len(),
{
    if s.len() > 0 {
        lemma_sum_split(s.drop_last(), a, m, b);
    }
}

proof fn lemma_sum_bounded(s: Seq<(u64, u64)>, a: int, b: int)
    requires
        a <= b,
    ensures
        0 <= coverage_sum(s, a, b) <= s.len() * (b - a),
    decreases s.len(),
{
    if s.len() > 0 {
        lemma_sum_bounded(s.drop_last(), a, b);
        assert((s.len() - 1) * (b - a) + (b - a) == s.len() * (b - a)) by (nonlinear_arith);
    }
}

/// The sweep: starting from zero, depth moves by the starts minus the ends at
/// each base. Gives the depth of every base and the running total before each.
fn sweep(spans: &Vec<(u64, u64)>, lo: u64, hi: u64) -> (r: (Vec<u128>, Vec<u128>))
    requires
        lo < hi,
    ensures
        r.0@.len() == hi - lo,
        r.1@.len() == hi - lo + 1,
        forall|t: int| 0 <= t < hi - lo ==> r.0@[t] == spans_containing(spans@, lo + t),
        forall|t: int| 0 <= t <= hi - lo ==> r.1@[t] == coverage_sum(spans@, lo as int, lo + t),
{
    let n = spans.len();
    let len: u64 = hi - lo;
    let (starts, ends) = boundary_counts(spans, lo, hi);
    let cap = starts.len();
    let mut depths: Vec<u128> = Vec::new();
    let mut totals: Vec<u128> = Vec::new();
    totals.push(0);
    assert(coverage_sum(spans@, lo as int, lo as int) == 0) by {
        lemma_sum_bounded(spans@, lo as int, lo as int);
    }
    let mut depth: u128 = 0;
    let mut acc: u128 = 0;
    let mut k: u64 = 0;
    while k < len
        invariant
            n == spans@.len(),
            len == hi - lo,
            lo < hi,
            k <= len,
            cap == len + 1,
            starts@.len() == len + 1,
            ends@.len() == len + 1,
            forall|t: int|
                0 <= t <= len ==> starts@[t] == starts_at(spans@, lo as int, hi as int, lo + t)
                    && ends@[t] == ends_at(spans@, lo as int, hi as int, lo + t),
            depth == (if k > 0 {
                spans_containing(spans@, lo + k - 1)
            } else {
                0
            }),
            acc == coverage_sum(spans@, lo as int, lo + k),
            depths@.len() == k,
            totals@.len() == k + 1,
            forall|t: int| 0 <= t < k ==> depths@[t] == spans_containing(spans@, lo + t),
            forall|t: int| 0 <= t <= k ==> totals@[t] == coverage_sum(spans@, lo as int, lo + t),
        decreases len - k,
    {
        proof {
            let p = lo + k;
            lemma_depth_step(spans@, lo as int, hi as int, p);
            lemma_count_bounds(spans@, lo as int, hi as int, p);
            lemma_count_bounds(spans@, lo as int, hi as int, p - 1);
            lemma_unit_sum_counts(spans@, p);
            lemma_sum_split(spans@, lo as int, p, p + 1);
            lemma_sum_bounded(spans@, lo as int, p + 1);
            assert(n * (k + 1) <= 0xffff_ffff_ffff_ffffu64 * 0xffff_ffff_ffff_ffffu64) by (
            nonlinear_arith)
                requires
                    n <= 0xffff_ffff_ffff_ffffu64,
                    k + 1 <= 0xffff_ffff_ffff_ffffu64,
            ;
        }
        depth = depth + starts[k as usize] as u128 - ends[k as usize] as u128;
        acc = acc + depth;
        depths.push(depth);
        totals.push(acc);
        k = k + 1;
    }
    (depths, totals)
}

/// Per-base depth over `[lo, hi)`, one point per base.
fn per_base(spans: &Vec<(u64, u64)>, lo: u64, hi: u64) -> (r: Vec<CoveragePoint>)
    requires
        lo < hi,
    ensures
        r@ == window_points(spans@, lo as int, hi as int, 1, 1),
{
    let len: u64 = hi - lo;
    let (depths, _) = sweep(spans, lo, hi);
    let mut out: Vec<CoveragePoint> = Vec::new();
    let mut k: u64 = 0;
    while k < len
        invariant
            len == hi - lo,
            lo < hi,
            k <= len,
            depths@.len() == len,
            forall|t: int| 0 <= t < len ==> depths@[t] == spans_containing(spans@, lo + t),
            out@.len() == k,
            forall|t: int|
                0 <= t < k ==> out@[t] == window_point(spans@, lo as int, hi as int, 1, 1, t),
        decreases len - k,
    {
        proof {
            lemma_unit_sum_counts(spans@, lo + k);
            assert(k * 1int == k);
        }
        let ghost t = k as int;
        out.push(CoveragePoint { position: lo + k, depth_sum: depths[k as usize], width: 1 });
        assert(out@[t] == window_point(spans@, lo as int, hi as int, 1, 1, t));
        k = k + 1;
    }
    proof {
        vstd::arithmetic::div_mod::lemma_div_basics(hi - lo - 1);
    }
    assert(out@ =~= window_points(spans@, lo as int, hi as int, 1, 1));
    out
}

/// Windows of size `w` stepping by `st` from `lo`, while their start is below `hi`.
fn windows(spans: &Vec<(u64, u64)>, lo: u64, hi: u64, w: u64, st: u64) -> (r: Vec<CoveragePoint>)
    requires
        lo < hi,
        0 < st <= w,
    ensures
        r@ == window_points(spans@, lo as int, hi as int, w as int, st as int),
{
    let (_, totals) = sweep(spans, lo, hi);
    let cap = totals.len();
    let mut out: Vec<CoveragePoint> = Vec::new();
    let mut pos: u64 = lo;
    assert(out@.len() * st == 0) by (nonlinear_arith)
        requires
            out@.len() == 0,
    ;
    loop
        invariant
            lo <= pos < hi,
            0 < st <= w,
            totals@.len() == hi - lo + 1,
            cap == hi - lo + 1,
            forall|t: int| 0 <= t <= hi - lo ==> totals@[t] == coverage_sum(spans@, lo as int, lo + t),
            pos as int == lo + out@.len() * st,
            forall|k: int|
                0 <= k < out@.len() ==> out@[k] == window_point(
                    spans@,
                    lo as int,
                    hi as int,
                    w as int,
                    st as int,
                    k,
                ),
        decreases hi - pos,
    {
        let end = if hi - pos > w {
            pos + w
        } else {
            hi
        };
        proof {
            lemma_sum_split(spans@, lo as int, pos as int, end as int);
            assert(totals@[end - lo] == coverage_sum(spans@, lo as int, end as int));
            assert(totals@[pos - lo] == coverage_sum(spans@, lo as int, pos as int));
        }
        let total = totals[(end - lo) as usize] - totals[(pos - lo) as usize];
        let ghost k = out@.len() as int;
        out.push(CoveragePoint { position: pos, depth_sum: total, width: end - pos });
        assert(out@[k] == window_point(spans@, lo as int, hi as int, w as int, st as int, k));
        if hi - pos <= st {
            proof {
                let n = out@.len() as int;
                let len = hi - lo;
                assert((n - 1) * st <= len - 1 < n * st) by (nonlinear_arith)
                    requires
                        pos == lo + (n - 1) * st,
                        hi - pos <= st,
                        pos < hi,
                        len == hi - lo,
                ;
                assert((len - 1) / (st as int) == n - 1) by (nonlinear_arith)
                    requires
                        (n - 1) * st <= len - 1 < n * st,
                        st > 0,
                        n >= 1,
                ;
            }
            assert(out@ =~= window_points(spans@, lo as int, hi as int, w as int, st as int));
            return out;
        }
        proof {
            let n = out@.len() as int;
            assert(lo + n * st == lo + (n - 1) * st + st) by (nonlinear_arith);
        }
        pos = pos + st;
    }
}

pub open spec fn region_chrom(region: Option<GenomicRegion>) -> Option<Seq<char>> {
    match region {
        Some(r) => Some(r.chromosome@),
        None => None,
    }
}

/// Splits the spans of the intervals that `region` selects into well-formed and
/// malformed ones.
fn collect_spans(intervals: &Vec<AlignmentInterval>, region: &Option<GenomicRegion>) -> (r: (
    Vec<(u64, u64)>,
    Vec<(u64, u64)>,
))
    ensures
        r.0@ == spans_where(considered_spans(intervals@, region_chrom(*region)), true),
        r.1@ == spans_where(considered_spans(intervals@, region_chrom(*region)), false),
{
    let ghost ch = region_chrom(*region);
    let mut good: Vec<(u64, u64)> = Vec::new();
    let mut bad: Vec<(u64, u64)> = Vec::new();
    let mut i: usize = 0;
    while i < intervals.len()
        invariant
            i <= intervals@.len(),
            ch == region_chrom(*region),
            good@ == spans_where(considered_spans(intervals@.subrange(0, i as int), ch), true),
            bad@ == spans_where(considered_spans(intervals@.subrange(0, i as int), ch), false),
        decreases intervals@.len() - i,
    {
        let iv = &intervals[i];
        let selected = match region {
            Some(r) => iv.chromosome == r.chromosome,
            None => true,
        };
        let ghost prefix = considered_spans(intervals@.subrange(0, i as int), ch);
        proof {
            let t = intervals@.subrange(0, i as int + 1);
            assert(t.drop_last() =~= intervals@.subrange(0, i as int));
            assert(t.last() == *iv);
        }
        if selected {
            let mut j: usize = 0;
            assert(prefix + iv.covered_spans@.subrange(0, 0) =~= prefix);
            while j < iv.covered_spans.len()
                invariant
                    j <= iv.covered_spans@.len(),
                    good@ == spans_where(prefix + iv.covered_spans@.subrange(0, j as int), true),
                    bad@ == spans_where(prefix + iv.covered_spans@.subrange(0, j as int), false),
                decreases iv.covered_spans@.len() - j,
            {
                let sp = iv.covered_spans[j];
                proof {
                    let t = prefix + iv.covered_spans@.subrange(0, j as int + 1);
                    assert(t.drop_last() =~= prefix + iv.covered_spans@.subrange(0, j as int));
                    assert(t.last() == sp);
                }
                if sp.0 < sp.1 {
                    good.push(sp);
                } else {
                    bad.push(sp);
                }
                j = j + 1;
            }
            assert(iv.covered_spans@.subrange(0, j as int) =~= iv.covered_spans@);
        } else {
        }
        i = i + 1;
    }
    assert(intervals@.subrange(0, intervals@.len() as int) =~= intervals@);
    (good, bad)
}

/// Smallest start and largest end over a non-empty list of spans.
fn span_bounds(spans: &Vec<(u64, u64)>) -> (r: (u64, u64))
    requires
        spans@.len() > 0,
    ensures
        r.0 == min_start(spans@),
        r.1 == max_end(spans@),
{
    let mut lo = spans[0].0;
    let mut hi = spans[0].1;
    let mut k: usize = 1;
    proof {
        assert(spans@.subrange(0, 1).len() == 1);
    }
    while k < spans.len()
        invariant
            1 <= k <= spans@.len(),
            lo == min_start(spans@.subrange(0, k as int)),
            hi == max_end(spans@.subrange(0, k as int)),
        decreases spans@.len() - k,
    {
        proof {
            let t = spans@.subrange(0, k as int + 1);
            assert(t.drop_last() =~= spans@.subrange(0, k as int));
        }
        if spans[k].0 < lo {
            lo = spans[k].0;
        }
        if spans[k].1 > hi {
            hi = spans[k].1;
        }
        k = k + 1;
    }
    assert(spans@.subrange(0, spans@.len() as int) =~= spans@);
    (lo, hi)
}

/// Whether some span shares a base with `[lo, hi)`.
fn meets_any(spans: &Vec<(u64, u64)>, lo: u64, hi: u64) -> (r: bool)
    ensures
        r == some_span_meets(spans@, lo as int, hi as int),
{
    let mut k: usize = 0;
    while k < spans.len()
        invariant
            k <= spans@.len(),
            forall|i: int| 0 <= i < k ==> !(spans@[i].0 < hi && lo < spans@[i].1),
        decreases spans@.len() - k,
    {
        if spans[k].0 < hi && lo < spans[k].1 {
            return true;
        }
        k = k + 1;
    }
    false
}

/// Whether every interval lies on the chromosome of the first.
fn same_chromosome(intervals: &Vec<AlignmentInterval>) -> (r: bool)
    ensures
        r == one_chromosome(intervals@),
{
    if intervals.len() == 0 {
        return true;
    }
    let mut k: usize = 1;
    while k < intervals.len()
        invariant
            1 <= k <= intervals@.len(),
            forall|i: int| 0 <= i < k ==> (#[trigger] intervals@[i]).chromosome@ == intervals@[0].chromosome@,
        decreases intervals@.len() - k,
    {
        if intervals[k].chromosome != intervals[0].chromosome {
            return false;
        }
        k = k + 1;
    }
    true
}

/// Computes the depth profile of the intervals over `region`, or over the span
/// of all well-formed spans when no region is given.
///
/// Only intervals on the region's chromosome count. Malformed spans (start not
/// below end) are left out of the depth and counted in `skipped_spans`.
/// Without a region, all intervals must lie on one chromosome. The result
/// depends on the intervals' spans alone, not on their order.
/// `PerBase` gives one point per base; `WindowAverage` tiles the region with
/// windows of `window_size`; `SlidingWindow` starts a window every `step_size`
/// bases. The last windows are clipped at the region's end.
pub fn compute_coverage(
    intervals: &Vec<AlignmentInterval>,
    region: &Option<GenomicRegion>,
    method: CoverageMethod,
    window: WindowParams,
) -> (r: Result<CoverageProfile, CoverageError>)
    ensures
        result_view(r) == coverage_spec(intervals@, *region, method, window),
{
    if let Some(reg) = region {
        if reg.start >= reg.end {
            return Err(CoverageError::InvalidRegion);
        }
    }
    match method {
        CoverageMethod::PerBase => {},
        CoverageMethod::WindowAverage => {
            if window.window_size == 0 {
                return Err(CoverageError::InvalidWindowSize);
            }
        },
        CoverageMethod::SlidingWindow => {
            if window.window_size == 0 {
                return Err(CoverageError::InvalidWindowSize);
            }
            if window.step_size == 0 || window.step_size > window.window_size {
                return Err(CoverageError::InvalidStepSize);
            }
        },
    }
    if region.is_none() && !same_chromosome(intervals) {
        return Err(CoverageError::MixedChromosomes);
    }
    let (good, bad) = collect_spans(intervals, region);
    if good.len() == 0 {
        return Err(CoverageError::EmptyInput);
    }
    let (name, lo, hi) = match region {
        Some(reg) => (reg.chromosome.clone(), reg.start, reg.end),
        None => {
            let (lo, hi) = span_bounds(&good);
            proof {
                assert(intervals@.len() > 0) by {
                    if intervals@.len() == 0 {
                        assert(considered_spans(intervals@, None) =~= Seq::empty());
                    }
                }
            }
            (intervals[0].chromosome.clone(), lo, hi)
        },
    };
    if !meets_any(&good, lo, hi) {
        return Err(CoverageError::EmptyInput);
    }
    proof {
        if region is None {
            lemma_bounds_order(good@);
        }
    }
    let points = match method {
        CoverageMethod::PerBase => per_base(&good, lo, hi),
        CoverageMethod::WindowAverage => windows(&good, lo, hi, window.window_size, window.window_size),
        CoverageMethod::SlidingWindow => windows(&good, lo, hi, window.window_size, window.step_size),
    };
    Ok(
        CoverageProfile {
            method,
            region: GenomicRegion { chromosome: name, start: lo, end: hi },
            points,
            skipped_spans: bad.len(),
        },
    )
}

/// Every start is at least `min_start` and every end at most `max_end`.
proof fn lemma_bounds_order(s: Seq<(u64, u64)>)
    requires
        s.len() > 0,
    ensures
        forall|i: int| 0 <= i < s.len() ==> min_start(s) <= #[trigger] s[i].0,
        forall|i: int| 0 <= i < s.len() ==> #[trigger] s[i].1 <= max_end(s),
    decreases s.len(),
{
    if s.len() > 1 {
        let t = s.drop_last();
        lemma_bounds_order(t);
        assert forall|i: int| 0 <= i < s.len() implies min_start(s) <= #[trigger] s[i].0 by {
            if i < t.len() {
                assert(t[i] == s[i]);
            }
        }
        assert forall|i: int| 0 <= i < s.len() implies #[trigger] s[i].1 <= max_end(s) by {
            if i < t.len() {
                assert(t[i] == s[i]);
            }
        }
    }
}

/// Over a single base, the summed overlap is the number of spans containing it.
pub proof fn lemma_unit_sum_counts(s: Seq<(u64, u64)>, p: int)
    ensures
        coverage_sum(s, p, p + 1) == spans_containing(s, p),
    decreases s.len(),
{
    if s.len() > 0 {
        lemma_unit_sum_counts(s.drop_last(), p);
    }
}

/// In a per-base profile, point `k` sits at `start + k` and its depth is the
/// number of well-formed selected spans whose `[start, end)` contains that base;
/// there is one point per base of the region.
pub proof fn law_per_base_depth_counts_spans(
    ivs: Seq<AlignmentInterval>,
    region: Option<GenomicRegion>,
    wp: WindowParams,
    k: int,
)
    requires
        coverage_spec(ivs, region, CoverageMethod::PerBase, wp) is Ok,
    ensures
        ({
            let v = coverage_spec(ivs, region, CoverageMethod::PerBase, wp)->Ok_0;
            let spans = spans_where(considered_spans(ivs, region_chrom(region)), true);
            &&& v.points.len() == v.end - v.start
            &&& 0 <= k < v.points.len() ==> {
                &&& v.points[k].position == v.start + k
                &&& v.points[k].width == 1
                &&& v.points[k].depth_sum == #[verifier::truncate] (spans_containing(spans, v.start + k) as u128)
            }
        }),
{
    let v = coverage_spec(ivs, region, CoverageMethod::PerBase, wp)->Ok_0;
    let spans = spans_where(considered_spans(ivs, region_chrom(region)), true);
    lemma_ok_region(ivs, region, CoverageMethod::PerBase, wp);
    assert((v.end - v.start - 1) / 1int == v.end - v.start - 1) by {
        vstd::arithmetic::div_mod::lemma_div_basics(v.end - v.start - 1);
    }
    if 0 <= k < v.points.len() {
        let p = v.start + k;
        lemma_unit_sum_counts(spans, p);
        assert(k * 1int == k);
    }
}

/// A successful profile covers a non-empty region and holds its windows.
pub proof fn lemma_ok_region(
    ivs: Seq<AlignmentInterval>,
    region: Option<GenomicRegion>,
    method: CoverageMethod,
    wp: WindowParams,
)
    requires
        coverage_spec(ivs, region, method, wp) is Ok,
    ensures
        ({
            let v = coverage_spec(ivs, region, method, wp)->Ok_0;
            let spans = spans_where(considered_spans(ivs, region_chrom(region)), true);
            let (w, st) = method_window(method, wp);
            &&& v.start < v.end
            &&& 0 < st
            &&& v.points == window_points(spans, v.start as int, v.end as int, w as int, st as int)
        }),
{
    let spans = spans_where(considered_spans(ivs, region_chrom(region)), true);
    if region is None {
        lemma_bounds_order(spans);
    }
}

/// A window-average profile has `ceil(region_length / window_size)` points.
pub proof fn law_window_average_length(
    ivs: Seq<AlignmentInterval>,
    region: Option<GenomicRegion>,
    wp: WindowParams,
)
    requires
        coverage_spec(ivs, region, CoverageMethod::WindowAverage, wp) is Ok,
    ensures
        ({
            let v = coverage_spec(ivs, region, CoverageMethod::WindowAverage, wp)->Ok_0;
            v.points.len() == (v.end - v.start + wp.window_size - 1) / (wp.window_size as int)
        }),
{
    let v = coverage_spec(ivs, region, CoverageMethod::WindowAverage, wp)->Ok_0;
    let len = v.end - v.start;
    let w = wp.window_size as int;
    lemma_ok_region(ivs, region, CoverageMethod::WindowAverage, wp);
    assert((len - 1) / w + 1 == (len - 1 + w) / w) by {
        vstd::arithmetic::div_mod::lemma_div_plus_one(len - 1, w);
    }
}

/// A sliding window whose step equals its size gives the same region and points
/// as a window average of that size, and fails with the same error.
pub proof fn law_sliding_full_step_is_window_average(
    ivs: Seq<AlignmentInterval>,
    region: Option<GenomicRegion>,
    wp: WindowParams,
)
    ensures
        ({
            let sliding = WindowParams { window_size: wp.window_size, step_size: wp.window_size };
            let a = coverage_spec(ivs, region, CoverageMethod::SlidingWindow, sliding);
            let b = coverage_spec(ivs, region, CoverageMethod::WindowAverage, wp);
            match (a, b) {
                (Ok(x), Ok(y)) => x.points == y.points && x.chromosome == y.chromosome && x.start
                    == y.start && x.end == y.end && x.skipped == y.skipped,
                (Err(e1), Err(e2)) => e1 == e2,
                _ => false,
            }
        }),
{
}

/// Sum of `f` over the items of `s`.
pub open spec fn seq_total<A>(s: Seq<A>, f: spec_fn(A) -> int) -> int
    decreases s.len(),
{
    if s.len() == 0 {
        0
    } else {
        seq_total(s.drop_last(), f) + f(s.last())
    }
}

proof fn lemma_total_remove<A>(s: Seq<A>, f: spec_fn(A) -> int, k: int)
    requires
        0 <= k < s.len(),
    ensures
        seq_total(s, f) == seq_total(s.remove(k), f) + f(s[k]),
    decreases s.len(),
{
    if k < s.len() - 1 {
        lemma_total_remove(s.drop_last(), f, k);
        assert(s.remove(k).drop_last() =~= s.drop_last().remove(k));
        assert(s.remove(k).last() == s.last());
    } else {
        assert(s.remove(k) =~= s.drop_last());
    }
}

/// A sum does not depend on the order of the items.
proof fn lemma_total_perm<A>(s1: Seq<A>, s2: Seq<A>, f: spec_fn(A) -> int)
    requires
        s1.to_multiset() == s2.to_multiset(),
    ensures
        seq_total(s1, f) == seq_total(s2, f),
    decreases s1.len(),
{
    broadcast use vstd::multiset::group_multiset_axioms;

    vstd::seq_lib::to_multiset_len(s1);
    vstd::seq_lib::to_multiset_len(s2);
    if s1.len() > 0 {
        let x = s1.last();
        let d = s1.drop_last();
        assert(d.push(x) =~= s1);
        vstd::seq_lib::to_multiset_build(d, x);
        vstd::seq_lib::to_multiset_contains(s2, x);
        let k = s2.lemma_contains_to_index(x);
        vstd::seq_lib::to_multiset_remove(s2, k);
        assert(s2.remove(k).to_multiset() =~= d.to_multiset());
        lemma_total_perm(d, s2.remove(k), f);
        lemma_total_remove(s2, f, k);
    }
}

proof fn lemma_where_concat(x: Seq<(u64, u64)>, y: Seq<(u64, u64)>, ok: bool)
    ensures
        spans_where(x + y, ok) == spans_where(x, ok) + spans_where(y, ok),
    decreases y.len(),
{
    if y.len() == 0 {
        assert(x + y =~= x);
        assert(spans_where(x, ok) + spans_where(y, ok) =~= spans_where(x, ok));
    } else {
        lemma_where_concat(x, y.drop_last(), ok);
        assert((x + y).drop_last() =~= x + y.drop_last());
        assert((x + y).last() == y.last());
        let a = spans_where(x, ok);
        let b = spans_where(y.drop_last(), ok);
        assert((a + b).push(y.last()) =~= a + b.push(y.last()));
    }
}

pub open spec fn kept_count_of(chrom: Option<Seq<char>>, ok: bool, sp: (u64, u64)) -> spec_fn(
    AlignmentInterval,
) -> int {
    |iv: AlignmentInterval|
        if chrom is None || iv.chromosome@ == chrom->0 {
            spans_where(iv.covered_spans@, ok).to_multiset().count(sp) as int
        } else {
            0
        }
}

proof fn lemma_kept_count(ivs: Seq<AlignmentInterval>, chrom: Option<Seq<char>>, ok: bool, sp: (u64, u64))
    ensures
        spans_where(considered_spans(ivs, chrom), ok).to_multiset().count(sp) == seq_total(
            ivs,
            kept_count_of(chrom, ok, sp),
        ),
    decreases ivs.len(),
{
    broadcast use vstd::multiset::group_multiset_axioms;

    if ivs.len() == 0 {
        let e = spans_where(considered_spans(ivs, chrom), ok);
        assert(e =~= Seq::<(u64, u64)>::empty());
        vstd::seq_lib::to_multiset_contains(e, sp);
    } else {
        lemma_kept_count(ivs.drop_last(), chrom, ok, sp);
        let rest = considered_spans(ivs.drop_last(), chrom);
        let last = ivs.last();
        if chrom is None || last.chromosome@ == chrom->0 {
            lemma_where_concat(rest, last.covered_spans@, ok);
            vstd::seq_lib::lemma_multiset_commutative(
                spans_where(rest, ok),
                spans_where(last.covered_spans@, ok),
            );
        }
    }
}

/// The kept spans, as a multiset, depend on the intervals' multiset alone.
proof fn lemma_kept_perm(
    ivs1: Seq<AlignmentInterval>,
    ivs2: Seq<AlignmentInterval>,
    chrom: Option<Seq<char>>,
    ok: bool,
)
    requires
        ivs1.to_multiset() == ivs2.to_multiset(),
    ensures
        spans_where(considered_spans(ivs1, chrom), ok).to_multiset() == spans_where(
            considered_spans(ivs2, chrom),
            ok,
        ).to_multiset(),
{
    let m1 = spans_where(considered_spans(ivs1, chrom), ok).to_multiset();
    let m2 = spans_where(considered_spans(ivs2, chrom), ok).to_multiset();
    assert forall|sp: (u64, u64)| m1.count(sp) == m2.count(sp) by {
        lemma_kept_count(ivs1, chrom, ok, sp);
        lemma_kept_count(ivs2, chrom, ok, sp);
        lemma_total_perm(ivs1, ivs2, kept_count_of(chrom, ok, sp));
    }
    assert(m1 =~= m2);
}

pub open spec fn overlap_of(a: int, b: int) -> spec_fn((u64, u64)) -> int {
    |sp: (u64, u64)| overlap(sp, a, b)
}

proof fn lemma_sum_as_total(s: Seq<(u64, u64)>, a: int, b: int)
    ensures
        coverage_sum(s, a, b) == seq_total(s, overlap_of(a, b)),
    decreases s.len(),
{
    if s.len() > 0 {
        lemma_sum_as_total(s.drop_last(), a, b);
    }
}

proof fn lemma_bounds_reached(s: Seq<(u64, u64)>)
    requires
        s.len() > 0,
    ensures
        exists|i: int| 0 <= i < s.len() && s[i].0 == min_start(s),
        exists|i: int| 0 <= i < s.len() && s[i].1 == max_end(s),
    decreases s.len(),
{
    if s.len() > 1 {
        let t = s.drop_last();
        lemma_bounds_reached(t);
        let i = choose|i: int| 0 <= i < t.len() && t[i].0 == min_start(t);
        let j = choose|j: int| 0 <= j < t.len() && t[j].1 == max_end(t);
        assert(s[i] == t[i] && s[j] == t[j]);
        assert(s[s.len() - 1] == s.last());
    } else {
        assert(s[0].0 == min_start(s));
    }
}

/// Two lists of the same spans in any order have the same bounds, meet the
/// same windows and give the same sums.
proof fn lemma_same_spans(s1: Seq<(u64, u64)>, s2: Seq<(u64, u64)>)
    requires
        s1.to_multiset() == s2.to_multiset(),
    ensures
        s1.len() == s2.len(),
        s1.len() > 0 ==> min_start(s1) == min_start(s2) && max_end(s1) == max_end(s2),
        forall|a: int, b: int| some_span_meets(s1, a, b) == some_span_meets(s2, a, b),
        forall|a: int, b: int| #[trigger] coverage_sum(s1, a, b) == coverage_sum(s2, a, b),
{
    vstd::seq_lib::to_multiset_len(s1);
    vstd::seq_lib::to_multiset_len(s2);
    assert forall|x: (u64, u64)| s1.contains(x) == s2.contains(x) by {
        vstd::seq_lib::to_multiset_contains(s1, x);
        vstd::seq_lib::to_multiset_contains(s2, x);
    }
    if s1.len() > 0 {
        lemma_bounds_order(s1);
        lemma_bounds_order(s2);
        lemma_bounds_reached(s1);
        lemma_bounds_reached(s2);
        let i1 = choose|i: int| 0 <= i < s1.len() && s1[i].0 == min_start(s1);
        let i2 = choose|i: int| 0 <= i < s2.len() && s2[i].0 == min_start(s2);
        let j1 = choose|i: int| 0 <= i < s1.len() && s1[i].1 == max_end(s1);
        let j2 = choose|i: int| 0 <= i < s2.len() && s2[i].1 == max_end(s2);
        assert(s1.contains(s1[i1]) && s2.contains(s2[i2]));
        assert(s1.contains(s1[j1]) && s2.contains(s2[j2]));
        let k1 = s2.lemma_contains_to_index(s1[i1]);
        let k2 = s1.lemma_contains_to_index(s2[i2]);
        let l1 = s2.lemma_contains_to_index(s1[j1]);
        let l2 = s1.lemma_contains_to_index(s2[j2]);
    }
    assert forall|a: int, b: int| some_span_meets(s1, a, b) == some_span_meets(s2, a, b) by {
        if some_span_meets(s1, a, b) {
            let i = choose|i: int| 0 <= i < s1.len() && s1[i].0 < b && a < s1[i].1;
            assert(s1.contains(s1[i]));
            let k = s2.lemma_contains_to_index(s1[i]);
        }
        if some_span_meets(s2, a, b) {
            let i = choose|i: int| 0 <= i < s2.len() && s2[i].0 < b && a < s2[i].1;
            assert(s2.contains(s2[i]));
            let k = s1.lemma_contains_to_index(s2[i]);
        }
    }
    assert forall|a: int, b: int| #[trigger] coverage_sum(s1, a, b) == coverage_sum(s2, a, b) by {
        lemma_sum_as_total(s1, a, b);
        lemma_sum_as_total(s2, a, b);
        lemma_total_perm(s1, s2, overlap_of(a, b));
    }
}

/// The profile, or the error, depends on which intervals are given and not on
/// the order in which they come.
pub proof fn law_coverage_ignores_interval_order(
    ivs1: Seq<AlignmentInterval>,
    ivs2: Seq<AlignmentInterval>,
    region: Option<GenomicRegion>,
    method: CoverageMethod,
    wp: WindowParams,
)
    requires
        ivs1.to_multiset() == ivs2.to_multiset(),
    ensures
        coverage_spec(ivs1, region, method, wp) == coverage_spec(ivs2, region, method, wp),
{
    let ch = region_chrom(region);
    let good1 = spans_where(considered_spans(ivs1, ch), true);
    let good2 = spans_where(considered_spans(ivs2, ch), true);
    let bad1 = spans_where(considered_spans(ivs1, ch), false);
    let bad2 = spans_where(considered_spans(ivs2, ch), false);
    lemma_kept_perm(ivs1, ivs2, ch, true);
    lemma_kept_perm(ivs1, ivs2, ch, false);
    lemma_same_spans(good1, good2);
    lemma_same_spans(bad1, bad2);
    vstd::seq_lib::to_multiset_len(ivs1);
    vstd::seq_lib::to_multiset_len(ivs2);
    assert forall|x: AlignmentInterval| ivs1.contains(x) == ivs2.contains(x) by {
        vstd::seq_lib::to_multiset_contains(ivs1, x);
        vstd::seq_lib::to_multiset_contains(ivs2, x);
    }
    if ivs1.len() > 0 {
        assert(ivs1.contains(ivs1[0]) && ivs2.contains(ivs2[0]));
        let a = ivs2.lemma_contains_to_index(ivs1[0]);
        let b = ivs1.lemma_contains_to_index(ivs2[0]);
        assert(one_chromosome(ivs1) ==> one_chromosome(ivs2)) by {
            if one_chromosome(ivs1) {
                assert forall|i: int| 0 <= i < ivs2.len() implies (#[trigger] ivs2[i]).chromosome@
                    == ivs2[0].chromosome@ by {
                    assert(ivs2.contains(ivs2[i]));
                    let k = ivs1.lemma_contains_to_index(ivs2[i]);
                }
            }
        }
        assert(one_chromosome(ivs2) ==> one_chromosome(ivs1)) by {
            if one_chromosome(ivs2) {
                assert forall|i: int| 0 <= i < ivs1.len() implies (#[trigger] ivs1[i]).chromosome@
                    == ivs1[0].chromosome@ by {
                    assert(ivs1.contains(ivs1[i]));
                    let k = ivs2.lemma_contains_to_index(ivs1[i]);
                }
            }
        }
    }
    let r1 = coverage_spec(ivs1, region, method, wp);
    let r2 = coverage_spec(ivs2, region, method, wp);
    if r1 is Ok && r2 is Ok {
        let v1 = r1->Ok_0;
        let v2 = r2->Ok_0;
        let (w, st) = method_window(method, wp);
        assert(v1.points =~= v2.points);
    }
}

} // verus!
