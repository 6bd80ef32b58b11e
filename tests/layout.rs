use egui_plot_ticks::{
    cluster_overlapping_ticks, compute_segmented_x_ticks, layout_labels, select_label_ticks, sort_by_screen,
    Coord, Interval, LabelArea, LabelCandidate, PlacedLabel, ScreenTick, SegmentedAxis, TickSide, VPlacement,
};

fn tick(world_x: i64, screen_x: i32, is_segment_edge: bool) -> ScreenTick {
    ScreenTick { world_x, screen_x, is_segment_edge }
}

fn iv(a: i64, b: i64) -> Interval {
    Interval::new(Coord::Finite(a), Coord::Finite(b))
}

#[test]
fn projected_ticks_sorted_with_edges() {
    let axis = SegmentedAxis::new(vec![iv(0, 200), iv(800, 1000)], 12);
    let ticks = axis.segment_ticks(100);
    // a compressing transform: the second segment lands right after the first
    let projected: Vec<Vec<Option<i32>>> = vec![
        vec![Some(0), Some(50), Some(100)],
        vec![Some(104), None, Some(200)],
    ];
    let out = compute_segmented_x_ticks(&axis, &ticks, &projected);
    assert_eq!(
        out,
        vec![tick(0, 0, true), tick(100, 50, false), tick(200, 100, true), tick(800, 104, true), tick(1000, 200, true)]
    );
}

#[test]
fn projected_ticks_resorted_by_screen() {
    let axis = SegmentedAxis::new(vec![iv(0, 10)], 4);
    let ticks = vec![vec![0, 5, 10]];
    // a flipped axis
    let projected = vec![vec![Some(300), Some(200), Some(100)]];
    let out = compute_segmented_x_ticks(&axis, &ticks, &projected);
    assert_eq!(out, vec![tick(10, 100, true), tick(5, 200, false), tick(0, 300, true)]);
}

#[test]
fn sort_orders_by_screen_position() {
    let v = vec![tick(3, 10, false), tick(1, 5, false), tick(2, 10, true), tick(0, 5, true)];
    assert_eq!(sort_by_screen(v), vec![tick(1, 5, false), tick(0, 5, true), tick(3, 10, false), tick(2, 10, true)]);
}

#[test]
fn close_ticks_form_one_cluster() {
    let v = vec![tick(0, 100, false), tick(1, 102, false), tick(2, 104, true), tick(3, 106, false)];
    let cl = cluster_overlapping_ticks(v.clone(), 6);
    assert_eq!(cl.len(), 1);
    assert_eq!(cl[0].ticks, v);
    assert_eq!(cl[0].screen_x, 100);
    assert!(cl[0].has_edge);
}

#[test]
fn distant_ticks_form_singletons() {
    let v = vec![tick(0, 0, false), tick(1, 7, false), tick(2, 20, false), tick(3, 27, true)];
    let cl = cluster_overlapping_ticks(v.clone(), 6);
    assert_eq!(cl.len(), 4);
    for (c, t) in cl.iter().zip(v.iter()) {
        assert_eq!(c.ticks, vec![*t]);
        assert_eq!(c.screen_x, t.screen_x);
        assert_eq!(c.has_edge, t.is_segment_edge);
    }
}

#[test]
fn clusters_compare_with_the_leader_not_the_neighbour() {
    // 4 px steps chain to 12 px, but 8 and 12 lie more than 6 px from the leader
    let v = vec![tick(0, 0, false), tick(1, 4, false), tick(2, 8, false), tick(3, 12, false)];
    let cl = cluster_overlapping_ticks(v, 6);
    assert_eq!(cl.len(), 2);
    assert_eq!(cl[0].ticks.len(), 2);
    assert_eq!(cl[1].screen_x, 8);
    assert_eq!(cl[1].ticks.len(), 2);
}

#[test]
fn empty_tick_list_has_no_clusters() {
    assert!(cluster_overlapping_ticks(Vec::new(), 6).is_empty());
}

#[test]
fn close_plain_clusters_are_skipped_but_edges_are_not() {
    let v = vec![tick(0, 0, true), tick(1, 30, false), tick(2, 70, false), tick(3, 80, true)];
    let cl = cluster_overlapping_ticks(v, 6);
    let cands = select_label_ticks(&cl, 60);
    let worlds: Vec<i64> = cands.iter().map(|c| c.tick.world_x).collect();
    assert_eq!(worlds, vec![0, 2, 3]);
    assert!(cands.iter().all(|c| c.side == TickSide::Center));
    assert_eq!(cands.iter().map(|c| c.cluster).collect::<Vec<_>>(), vec![0, 2, 3]);
}

#[test]
fn collided_cluster_labels_its_extremes() {
    let v = vec![tick(200, 100, true), tick(150, 101, false), tick(800, 103, true), tick(900, 105, false)];
    let cl = cluster_overlapping_ticks(v, 6);
    let cands = select_label_ticks(&cl, 60);
    assert_eq!(
        cands,
        vec![
            LabelCandidate { tick: tick(150, 101, false), side: TickSide::Left, cluster: 0 },
            LabelCandidate { tick: tick(900, 105, false), side: TickSide::Right, cluster: 0 },
        ]
    );
}

#[test]
fn labels_are_positioned_by_side() {
    let cands = vec![
        LabelCandidate { tick: tick(0, 100, true), side: TickSide::Center, cluster: 0 },
        LabelCandidate { tick: tick(1, 200, true), side: TickSide::Left, cluster: 1 },
        LabelCandidate { tick: tick(2, 200, true), side: TickSide::Right, cluster: 1 },
    ];
    let sizes = vec![Some((20, 12)), Some((30, 14)), Some((10, 9))];
    let area = LabelArea { min_x: 0, min_y: 500, max_x: 1000, max_y: 520 };
    let out = layout_labels(&cands, &sizes, area, VPlacement::Bottom);
    assert_eq!(
        out.labels,
        vec![
            PlacedLabel { candidate: 0, x: 90, y: 500 },
            PlacedLabel { candidate: 1, x: 168, y: 500 },
            PlacedLabel { candidate: 2, x: 202, y: 500 },
        ]
    );
    assert_eq!(out.thickness, 14);
    let top = layout_labels(&cands, &sizes, area, VPlacement::Top);
    assert_eq!(top.labels[0].y, 508);
    assert_eq!(top.labels[1].y, 506);
}

#[test]
fn empty_and_offscreen_labels_are_dropped() {
    let cands = vec![
        LabelCandidate { tick: tick(0, -50, true), side: TickSide::Center, cluster: 0 },
        LabelCandidate { tick: tick(1, 100, false), side: TickSide::Center, cluster: 1 },
        LabelCandidate { tick: tick(2, 1030, true), side: TickSide::Center, cluster: 2 },
        LabelCandidate { tick: tick(3, 1010, true), side: TickSide::Center, cluster: 3 },
    ];
    let sizes = vec![Some((20, 40)), None, Some((40, 30)), Some((40, 12))];
    let area = LabelArea { min_x: 0, min_y: 0, max_x: 1000, max_y: 20 };
    let out = layout_labels(&cands, &sizes, area, VPlacement::Bottom);
    assert_eq!(out.labels, vec![PlacedLabel { candidate: 3, x: 990, y: 0 }]);
    assert_eq!(out.thickness, 12);
}

#[test]
fn nothing_drawn_gives_zero_thickness() {
    let area = LabelArea { min_x: 0, min_y: 0, max_x: 100, max_y: 20 };
    let out = layout_labels(&Vec::new(), &Vec::new(), area, VPlacement::Bottom);
    assert!(out.labels.is_empty());
    assert_eq!(out.thickness, 0);
}

#[test]
fn well_spaced_labels_do_not_overlap() {
    let v: Vec<ScreenTick> = (0..20).map(|i| tick(i, (i * 23) as i32, false)).collect();
    let cl = cluster_overlapping_ticks(v, 6);
    let cands = select_label_ticks(&cl, 60);
    let sizes: Vec<Option<(u32, u32)>> = cands.iter().map(|_| Some((55, 12))).collect();
    let area = LabelArea { min_x: 0, min_y: 0, max_x: 1000, max_y: 20 };
    let out = layout_labels(&cands, &sizes, area, VPlacement::Bottom);
    assert!(out.labels.len() > 1);
    for w in out.labels.windows(2) {
        assert!(w[0].x + 55 <= w[1].x);
    }
}

#[test]
fn edge_clusters_are_labelled_even_when_close() {
    // boundaries are never skipped, so wide labels of nearby edges can meet
    let v = vec![tick(200, 100, true), tick(800, 110, true)];
    let cl = cluster_overlapping_ticks(v, 6);
    assert_eq!(cl.len(), 2);
    let cands = select_label_ticks(&cl, 60);
    assert_eq!(cands.len(), 2);
    let sizes = vec![Some((40, 12)), Some((40, 12))];
    let area = LabelArea { min_x: 0, min_y: 0, max_x: 1000, max_y: 20 };
    let out = layout_labels(&cands, &sizes, area, VPlacement::Bottom);
    assert_eq!(out.labels, vec![PlacedLabel { candidate: 0, x: 80, y: 0 }, PlacedLabel { candidate: 1, x: 90, y: 0 }]);
}
