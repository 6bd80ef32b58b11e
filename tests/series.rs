use egui_plot_ticks::{clamp_slice_range, usable_runs, RangeBound};

#[test]
fn slice_ranges_are_clamped() {
    assert_eq!(clamp_slice_range(10, RangeBound::Unbounded, RangeBound::Unbounded), Some((0, 10)));
    assert_eq!(clamp_slice_range(10, RangeBound::Included(2), RangeBound::Excluded(5)), Some((2, 5)));
    assert_eq!(clamp_slice_range(10, RangeBound::Excluded(2), RangeBound::Included(5)), Some((3, 6)));
    assert_eq!(clamp_slice_range(10, RangeBound::Included(4), RangeBound::Included(100)), Some((4, 10)));
    assert_eq!(clamp_slice_range(10, RangeBound::Included(7), RangeBound::Excluded(7)), None);
    assert_eq!(clamp_slice_range(10, RangeBound::Included(12), RangeBound::Unbounded), None);
    assert_eq!(clamp_slice_range(10, RangeBound::Excluded(usize::MAX), RangeBound::Unbounded), None);
    assert_eq!(clamp_slice_range(0, RangeBound::Unbounded, RangeBound::Unbounded), None);
    assert_eq!(
        clamp_slice_range(usize::MAX, RangeBound::Included(1), RangeBound::Included(usize::MAX)),
        Some((1, usize::MAX))
    );
}

#[test]
fn runs_of_usable_samples() {
    assert_eq!(usable_runs(&vec![]), vec![]);
    assert_eq!(usable_runs(&vec![false, false]), vec![]);
    assert_eq!(usable_runs(&vec![true, true, true]), vec![(0, 3)]);
    assert_eq!(
        usable_runs(&vec![false, true, true, false, false, true, false, true]),
        vec![(1, 3), (5, 6), (7, 8)]
    );
    assert_eq!(usable_runs(&vec![true, false, true]), vec![(0, 1), (2, 3)]);
}
