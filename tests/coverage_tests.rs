use biolens::constants::CoverageMethod;
use biolens::coverage::{
    compute_coverage, AlignmentInterval, CoverageError, CoverageProfile, GenomicRegion,
    WindowParams,
};

fn interval(chrom: &str, spans: &[(u64, u64)]) -> AlignmentInterval {
    AlignmentInterval { chromosome: chrom.to_string(), covered_spans: spans.to_vec() }
}

fn region(chrom: &str, start: u64, end: u64) -> Option<GenomicRegion> {
    Some(GenomicRegion { chromosome: chrom.to_string(), start, end })
}

fn params(w: u64, s: u64) -> WindowParams {
    WindowParams { window_size: w, step_size: s }
}

fn depth_at(p: &CoverageProfile, pos: u64) -> f64 {
    let pt = p.points.iter().find(|pt| pt.position == pos).unwrap();
    pt.depth_sum as f64 / pt.width as f64
}

#[test]
fn two_overlapping_reads_per_base_depth() {
    // chr1:100-170, 1-based inclusive, is [99, 170) once normalised.
    let ivs = vec![interval("chr1", &[(100, 150)]), interval("chr1", &[(120, 170)])];
    let p = compute_coverage(&ivs, &region("chr1", 99, 170), CoverageMethod::PerBase, params(1, 1))
        .unwrap();
    assert_eq!(depth_at(&p, 130), 2.0);
    assert_eq!(depth_at(&p, 105), 1.0);
    assert_eq!(depth_at(&p, 165), 1.0);
    assert_eq!(depth_at(&p, 99), 0.0);
    assert_eq!(p.points.len(), 71);
}

#[test]
fn per_base_depth_counts_containing_spans() {
    let ivs = vec![
        interval("chr2", &[(0, 5), (8, 12)]),
        interval("chr2", &[(3, 9)]),
        interval("chr2", &[(4, 4)]),
        interval("chr9", &[(0, 20)]),
    ];
    let p = compute_coverage(&ivs, &region("chr2", 0, 12), CoverageMethod::PerBase, params(0, 0))
        .unwrap();
    let spans = [(0u64, 5u64), (8, 12), (3, 9)];
    for pos in 0..12u64 {
        let expected = spans.iter().filter(|s| s.0 <= pos && pos < s.1).count() as u128;
        let pt = p.points[pos as usize];
        assert_eq!(pt.position, pos);
        assert_eq!(pt.width, 1);
        assert_eq!(pt.depth_sum, expected);
    }
    assert_eq!(p.skipped_spans, 1);
}

#[test]
fn read_ending_where_another_begins_leaves_no_gap() {
    let ivs = vec![interval("c", &[(0, 10)]), interval("c", &[(10, 20)])];
    let p = compute_coverage(&ivs, &region("c", 5, 15), CoverageMethod::PerBase, params(1, 1)).unwrap();
    assert!(p.points.iter().all(|pt| pt.depth_sum == 1));
}

#[test]
fn window_average_length_is_ceiling() {
    let ivs = vec![interval("c", &[(0, 100)])];
    for (len, w) in [(10u64, 3u64), (9, 3), (1, 5), (100, 7), (7, 1)] {
        let p = compute_coverage(&ivs, &region("c", 0, len), CoverageMethod::WindowAverage, params(w, 0))
            .unwrap();
        assert_eq!(p.points.len() as u64, (len + w - 1) / w);
    }
}

#[test]
fn window_average_means_and_truncated_last_window() {
    let ivs = vec![interval("c", &[(0, 4)]), interval("c", &[(2, 7)])];
    let p = compute_coverage(&ivs, &region("c", 0, 7), CoverageMethod::WindowAverage, params(3, 9))
        .unwrap();
    let got: Vec<(u64, u128, u64)> = p.points.iter().map(|x| (x.position, x.depth_sum, x.width)).collect();
    // depths per base: 1 1 2 2 1 1 1
    assert_eq!(got, vec![(0, 4, 3), (3, 4, 3), (6, 1, 1)]);
}

#[test]
fn sliding_window_with_full_step_equals_window_average() {
    let ivs = vec![interval("c", &[(1, 9), (12, 30)]), interval("c", &[(5, 22)])];
    let reg = region("c", 0, 31);
    let a = compute_coverage(&ivs, &reg, CoverageMethod::WindowAverage, params(4, 1)).unwrap();
    let b = compute_coverage(&ivs, &reg, CoverageMethod::SlidingWindow, params(4, 4)).unwrap();
    assert_eq!(a.points, b.points);
}

#[test]
fn sliding_window_overlaps() {
    let ivs = vec![interval("c", &[(0, 6)])];
    let p = compute_coverage(&ivs, &region("c", 0, 6), CoverageMethod::SlidingWindow, params(4, 2))
        .unwrap();
    let got: Vec<(u64, u128, u64)> = p.points.iter().map(|x| (x.position, x.depth_sum, x.width)).collect();
    assert_eq!(got, vec![(0, 4, 4), (2, 4, 4), (4, 2, 2)]);
}

#[test]
fn region_defaults_to_span_bounds() {
    let ivs = vec![interval("chrX", &[(40, 50)]), interval("chrX", &[(45, 60), (9, 3)])];
    let p = compute_coverage(&ivs, &None, CoverageMethod::PerBase, params(1, 1)).unwrap();
    assert_eq!(p.region.chromosome, "chrX");
    assert_eq!((p.region.start, p.region.end), (40, 60));
    assert_eq!(p.points.len(), 20);
    assert_eq!(p.skipped_spans, 1);
}

#[test]
fn invalid_region_is_rejected() {
    let ivs = vec![interval("c", &[(0, 6)])];
    let r = compute_coverage(&ivs, &region("c", 6, 6), CoverageMethod::PerBase, params(1, 1));
    assert_eq!(r.err(), Some(CoverageError::InvalidRegion));
}

#[test]
fn zero_window_or_step_is_rejected() {
    let ivs = vec![interval("c", &[(0, 6)])];
    let reg = region("c", 0, 6);
    let r = compute_coverage(&ivs, &reg, CoverageMethod::WindowAverage, params(0, 1));
    assert_eq!(r.err(), Some(CoverageError::InvalidWindowSize));
    let r = compute_coverage(&ivs, &reg, CoverageMethod::SlidingWindow, params(0, 0));
    assert_eq!(r.err(), Some(CoverageError::InvalidWindowSize));
    let r = compute_coverage(&ivs, &reg, CoverageMethod::SlidingWindow, params(3, 0));
    assert_eq!(r.err(), Some(CoverageError::InvalidStepSize));
    let r = compute_coverage(&ivs, &reg, CoverageMethod::SlidingWindow, params(3, 4));
    assert_eq!(r.err(), Some(CoverageError::InvalidStepSize));
}

#[test]
fn empty_input_is_rejected() {
    let r = compute_coverage(&vec![], &None, CoverageMethod::PerBase, params(1, 1));
    assert_eq!(r.err(), Some(CoverageError::EmptyInput));
    let ivs = vec![interval("c", &[(0, 6)]), interval("d", &[(10, 20)])];
    let r = compute_coverage(&ivs, &region("c", 10, 20), CoverageMethod::PerBase, params(1, 1));
    assert_eq!(r.err(), Some(CoverageError::EmptyInput));
}

#[test]
fn input_order_does_not_matter() {
    let a = vec![interval("c", &[(0, 6)]), interval("c", &[(2, 9)]), interval("c", &[(4, 5)])];
    let b = vec![interval("c", &[(4, 5)]), interval("c", &[(0, 6)]), interval("c", &[(2, 9)])];
    let reg = region("c", 0, 9);
    let pa = compute_coverage(&a, &reg, CoverageMethod::SlidingWindow, params(3, 2)).unwrap();
    let pb = compute_coverage(&b, &reg, CoverageMethod::SlidingWindow, params(3, 2)).unwrap();
    assert_eq!(pa.points, pb.points);
}

#[test]
fn malformed_spans_are_counted_whatever_the_order() {
    let a = vec![interval("c", &[(0, 3), (5, 5)]), interval("c", &[(7, 7)])];
    let b = vec![interval("c", &[(7, 7)]), interval("c", &[(0, 3), (5, 5)])];
    let reg = region("c", 0, 3);
    let pa = compute_coverage(&a, &reg, CoverageMethod::PerBase, params(1, 1)).unwrap();
    let pb = compute_coverage(&b, &reg, CoverageMethod::PerBase, params(1, 1)).unwrap();
    assert_eq!(pa.skipped_spans, 2);
    assert_eq!(pb.skipped_spans, 2);
    assert_eq!(pa.points, pb.points);
}

#[test]
fn mixed_chromosomes_without_region_are_rejected() {
    let ivs = vec![interval("chr1", &[(0, 5)]), interval("chr2", &[(3, 9)])];
    let r = compute_coverage(&ivs, &None, CoverageMethod::PerBase, params(1, 1));
    assert_eq!(r.err(), Some(CoverageError::MixedChromosomes));
    let p = compute_coverage(&ivs, &region("chr2", 0, 9), CoverageMethod::PerBase, params(1, 1))
        .unwrap();
    assert_eq!(p.points.iter().map(|x| x.depth_sum).sum::<u128>(), 6);
}
