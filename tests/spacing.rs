use egui_plot_ticks::{
    default_label_spacing, estimate_step_hint, layout_regular_labels, regular_label_visible, Axis, LabelSpacing,
};

#[test]
fn step_hint_from_view() {
    // 1000 data units over 800 pixels: 1.25 units per pixel, times 80 pixels
    assert_eq!(estimate_step_hint(1000, 800), Some(100));
    assert_eq!(estimate_step_hint(1000, 8000), Some(10));
    assert_eq!(estimate_step_hint(5, 800), Some(0));
    assert_eq!(estimate_step_hint(1000, 0), None);
    assert_eq!(estimate_step_hint(u64::MAX, 1), Some(u64::MAX));
}

#[test]
fn regular_labels_need_room() {
    assert!(!regular_label_visible(60, 60, 10));
    assert!(regular_label_visible(61, 60, 10));
    assert!(regular_label_visible(100, 60, 100));
    assert!(!regular_label_visible(100, 60, 101));
}

#[test]
fn default_spacing_per_axis() {
    assert_eq!(default_label_spacing(Axis::X), LabelSpacing { min: 60, max: 80 });
    assert_eq!(default_label_spacing(Axis::Y), LabelSpacing { min: 20, max: 30 });
}

#[test]
fn regular_labels_on_x_axis() {
    // too close, empty text, too wide, drawn, drawn
    let sizes = vec![Some((20, 12)), None, Some((90, 14)), Some((40, 16)), Some((30, 11))];
    let spacings = vec![50, 100, 80, 80, 80];
    let out = layout_regular_labels(Axis::X, &sizes, &spacings, 60);
    assert_eq!(out.drawn, vec![3, 4]);
    assert_eq!(out.thickness, 16);
}

#[test]
fn regular_labels_on_y_axis_count_side_margins() {
    let sizes = vec![Some((40, 12)), Some((55, 12)), Some((70, 40))];
    let spacings = vec![30, 30, 30];
    let out = layout_regular_labels(Axis::Y, &sizes, &spacings, 20);
    // the third is 40 high, more than the spacing of 30
    assert_eq!(out.drawn, vec![0, 1]);
    assert_eq!(out.thickness, 55 + 8);
}

#[test]
fn no_regular_label_gives_zero_thickness() {
    let out = layout_regular_labels(Axis::X, &vec![None, Some((10, 10))], &vec![100, 10], 60);
    assert!(out.drawn.is_empty());
    assert_eq!(out.thickness, 0);
}
