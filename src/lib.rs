//! Tick layout for plot axes that may be split into several disjoint
//! segments: which tick values to generate, where they land on screen, and
//! which labels can be drawn without overlap.
//!
//! Data values are whole numbers of a unit the host picks (its resolution),
//! with `-∞` and `+∞` as bounds; screen positions and label sizes are whole
//! pixels. The host's coordinate transform and text measurement stay outside:
//! their results come in as plain values.

pub mod axis;
pub mod interval;
pub mod labels;
pub mod nice;
pub mod segments;
pub mod series;
pub mod ticks;

pub use axis::{Axis, HPlacement, Placement, ResetBehavior, VPlacement};
pub use interval::{Coord, Interval, Length};
pub use nice::nice_step;
pub use segments::{BrokenXAxis, SegmentedAxis};
pub use series::{clamp_slice_range, usable_runs, RangeBound, Segments};
pub use ticks::{
    cluster_overlapping_ticks, compute_segmented_x_ticks, estimate_step_hint, sort_by_screen, ScreenTick, TickCluster,
    DESIRED_PIXEL_SPACING,
};
pub use labels::{
    default_label_spacing, layout_labels, layout_regular_labels, regular_label_visible, select_label_ticks, LabelArea, LabelCandidate,
    LabelLayout, LabelSpacing, PlacedLabel, RegularLayout, TickSide, LABEL_GAP, SIDE_MARGIN,
};
