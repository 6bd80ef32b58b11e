use egui_plot_ticks::{BrokenXAxis, Coord, Interval, SegmentedAxis};

fn iv(a: i64, b: i64) -> Interval {
    Interval::new(Coord::Finite(a), Coord::Finite(b))
}

#[test]
fn overlapping_segments_merge() {
    let axis = SegmentedAxis::new(vec![iv(0, 10), iv(5, 15)], 8);
    assert_eq!(axis.segments, vec![iv(0, 15)]);
    assert_eq!(axis.gap_px, 8);
    assert!(!axis.is_multi_segment());
}

#[test]
fn touching_segments_merge_and_gaps_stay() {
    let axis = SegmentedAxis::new(vec![iv(0, 5), iv(5, 9), iv(10, 12)], 4);
    assert_eq!(axis.segments, vec![iv(0, 9), iv(10, 12)]);
    assert!(axis.is_multi_segment());
}

#[test]
fn segments_are_sorted_and_disjoint() {
    let axis = SegmentedAxis::new(vec![iv(800, 1000), iv(300, 400), iv(0, 200), iv(350, 500), iv(100, 120)], 4);
    assert_eq!(axis.segments, vec![iv(0, 200), iv(300, 500), iv(800, 1000)]);
    for w in axis.segments.windows(2) {
        match (w[0].end, w[1].start) {
            (Coord::Finite(a), Coord::Finite(b)) => assert!(a < b),
            _ => panic!("finite bounds expected"),
        }
    }
}

#[test]
fn zero_width_segment_is_dropped() {
    let axis = SegmentedAxis::new(vec![Interval { start: Coord::Finite(5), end: Coord::Finite(5) }], 4);
    assert!(axis.segments.is_empty());
    assert!(axis.segment_ticks(10).is_empty());
    let axis = SegmentedAxis::new(vec![iv(0, 2), Interval { start: Coord::Finite(5), end: Coord::Finite(5) }], 4);
    assert_eq!(axis.segments, vec![iv(0, 2)]);
    let broken = BrokenXAxis::new(vec![Interval { start: Coord::Finite(5), end: Coord::Finite(5) }, iv(7, 9)], 4);
    assert_eq!(broken.segments, vec![iv(7, 9)]);
}

#[test]
fn unbounded_segments_merge() {
    let axis = SegmentedAxis::new(
        vec![Interval::above(Coord::Finite(50)), Interval::below(Coord::Finite(0)), iv(40, 60)],
        4,
    );
    assert_eq!(axis.segments, vec![Interval::below(Coord::Finite(0)), Interval::above(Coord::Finite(40))]);
    let axis = SegmentedAxis::new(vec![Interval::above(Coord::Finite(0)), Interval::below(Coord::Finite(0))], 4);
    assert_eq!(axis.segments, vec![Interval::all()]);
}

#[test]
fn uniform_step_scenario_two_segments() {
    let axis = SegmentedAxis::new(vec![iv(0, 200), iv(800, 1000)], 12);
    let ticks = axis.segment_ticks(100);
    assert_eq!(ticks, vec![vec![0, 100, 200], vec![800, 900, 1000]]);
    assert_eq!(*ticks[1].iter().min().unwrap(), 800);
}

#[test]
fn uniform_step_hint_larger_than_span() {
    let axis = SegmentedAxis::new(vec![iv(0, 1)], 12);
    assert_eq!(axis.segment_ticks(1000), vec![vec![0, 1]]);
}

#[test]
fn uniform_step_is_shared() {
    // raw steps are 100 and 10: the larger one serves both
    let axis = SegmentedAxis::new(vec![iv(0, 1000), iv(2000, 2010)], 12);
    assert_eq!(axis.segment_ticks(100)[1], vec![2000, 2010]);
    assert_eq!(axis.segment_ticks(100)[0].len(), 11);
}

#[test]
fn local_step_is_per_segment() {
    let axis = BrokenXAxis::new(vec![iv(0, 1000), iv(2000, 2030)], 12);
    let ticks = axis.segment_ticks(100);
    assert_eq!(ticks[0], vec![0, 100, 200, 300, 400, 500, 600, 700, 800, 900, 1000]);
    // raw step min(30, 100) = 30 snaps to 20
    assert_eq!(ticks[1], vec![2000, 2020, 2030]);
}

#[test]
fn boundaries_are_forced_off_the_grid() {
    let axis = SegmentedAxis::new(vec![iv(5, 27)], 4);
    assert_eq!(axis.segment_ticks(10), vec![vec![5, 10, 20, 27]]);
    let axis = BrokenXAxis::new(vec![iv(-25, -3)], 4);
    assert_eq!(axis.segment_ticks(10), vec![vec![-25, -20, -10, -3]]);
}

#[test]
fn zero_hint_counts_as_smallest_step() {
    let axis = BrokenXAxis::new(vec![iv(0, 3)], 4);
    assert_eq!(axis.segment_ticks(0), vec![vec![0, 1, 2, 3]]);
    let axis = SegmentedAxis::new(vec![iv(0, 3)], 4);
    assert_eq!(axis.segment_ticks(0), vec![vec![0, 1, 2, 3]]);
}

#[test]
fn unbounded_segments_get_no_ticks() {
    let axis = SegmentedAxis::new(vec![Interval::below(Coord::Finite(0)), iv(10, 20)], 4);
    assert_eq!(axis.segment_ticks(5), vec![vec![], vec![10, 15, 20]]);
    let axis = SegmentedAxis::new(vec![Interval::all()], 4);
    assert_eq!(axis.segment_ticks(5), vec![Vec::<i64>::new()]);
    let axis = BrokenXAxis::new(vec![Interval::above(Coord::Finite(3))], 4);
    assert_eq!(axis.segment_ticks(5), vec![Vec::<i64>::new()]);
}

#[test]
fn extreme_segment_bounds() {
    let axis = SegmentedAxis::new(vec![iv(i64::MIN, i64::MAX)], 4);
    let ticks = axis.segment_ticks(u64::MAX);
    assert_eq!(ticks[0].first(), Some(&i64::MIN));
    assert_eq!(ticks[0].last(), Some(&i64::MAX));
    assert_eq!(ticks[0], vec![i64::MIN, 0, i64::MAX]);
}
