//! Which ticks of a segmented axis get a text label, and where it goes.
use vstd::prelude::*;
use crate::axis::{Axis, VPlacement};
use crate::ticks::{is_cluster, is_leader_clustering, ScreenTick, TickCluster};

verus! {

/// Which side of its tick a label is drawn on.
#[derive(Clone, Copy, Debug, PartialEq, Eq, Structural)]
pub enum TickSide {
    /// Text ends just left of the tick.
    Left,
    /// Text starts just right of the tick.
    Right,
    /// Text is centred on the tick.
    Center,
}

/// A tick chosen for a label, the side of the label, and the index of the
/// cluster it came from.
#[derive(Clone, Copy, Debug, PartialEq, Eq, Structural)]
pub struct LabelCandidate {
    pub tick: ScreenTick,
    pub side: TickSide,
    pub cluster: usize,
}

/// Pixels between a tick and a label drawn on one side of it.
pub const LABEL_GAP: i64 = 2;

/// Index of the first member with the least data value.
pub open spec fn least_index(s: Seq<ScreenTick>) -> int
    decreases s.len(),
{
    if s.len() <= 1 {
        0
    } else {
        let m = least_index(s.drop_last());
        if s.last().world_x < s[m].world_x {
            s.len() - 1
        } else {
            m
        }
    }
}

/// Index of the last member with the greatest data value.
pub open spec fn greatest_index(s: Seq<ScreenTick>) -> int
    decreases s.len(),
{
    if s.len() <= 1 {
        0
    } else {
        let m = greatest_index(s.drop_last());
        if s.last().world_x >= s[m].world_x {
            s.len() - 1
        } else {
            m
        }
    }
}

proof fn lemma_extreme_index_bounds(s: Seq<ScreenTick>)
    requires
        s.len() > 0,
    ensures
        0 <= least_index(s) < s.len(),
        0 <= greatest_index(s) < s.len(),
    decreases s.len(),
{
    if s.len() > 1 {
        lemma_extreme_index_bounds(s.drop_last());
    }
}

/// Whether a cluster gets labels, given the anchor of the last cluster that
/// did: always when it holds a segment edge, else only when it lies at least
/// `spacing_min` pixels from that anchor.
pub open spec fn draws(c: TickCluster, last: Option<int>, spacing_min: int) -> bool {
    c.has_edge || match last {
        None => true,
        Some(p) => spacing_min <= (if c.screen_x >= p { c.screen_x - p } else { p - c.screen_x }),
    }
}

/// The anchor of the last cluster among the first `k` that gets labels.
pub open spec fn last_drawn(cl: Seq<TickCluster>, spacing_min: int, k: int) -> Option<int>
    decreases k,
{
    if k <= 0 {
        None
    } else {
        let prev = last_drawn(cl, spacing_min, k - 1);
        if draws(cl[k - 1], prev, spacing_min) {
            Some(cl[k - 1].screen_x as int)
        } else {
            prev
        }
    }
}

pub open spec fn is_drawn(cl: Seq<TickCluster>, spacing_min: int, k: int) -> bool {
    draws(cl[k], last_drawn(cl, spacing_min, k), spacing_min)
}

/// The labels of a drawn cluster: one centred label for a single member;
/// else a left label on the least member and a right label on the greatest.
pub open spec fn labels_of(c: TickCluster, k: int) -> Seq<LabelCandidate> {
    let s = c.ticks@;
    if s.len() == 1 {
        seq![LabelCandidate { tick: s[0], side: TickSide::Center, cluster: k as usize }]
    } else {
        seq![
            LabelCandidate { tick: s[least_index(s)], side: TickSide::Left, cluster: k as usize },
            LabelCandidate { tick: s[greatest_index(s)], side: TickSide::Right, cluster: k as usize },
        ]
    }
}

/// The labels of the first `k` clusters, in screen order.
pub open spec fn selected(cl: Seq<TickCluster>, spacing_min: int, k: int) -> Seq<LabelCandidate>
    decreases k,
{
    if k <= 0 {
        Seq::empty()
    } else {
        selected(cl, spacing_min, k - 1) + if is_drawn(cl, spacing_min, k - 1) {
            labels_of(cl[k - 1], k - 1)
        } else {
            Seq::empty()
        }
    }
}

fn extreme_indices(s: &Vec<ScreenTick>) -> (r: (usize, usize))
    requires
        s@.len() > 0,
    ensures
        r.0 == least_index(s@),
        r.1 == greatest_index(s@),
{
    let mut lo: usize = 0;
    let mut hi: usize = 0;
    let mut i: usize = 1;
    assert(s@.subrange(0, 1).len() == 1);
    while i < s.len()
        invariant
            1 <= i <= s@.len(),
            lo == least_index(s@.subrange(0, i as int)),
            hi == greatest_index(s@.subrange(0, i as int)),
        decreases s.len() - i,
    {
        let ghost pre = s@.subrange(0, i as int);
        let ghost cur = s@.subrange(0, i + 1);
        proof {
            assert(cur.drop_last() == pre);
            lemma_extreme_index_bounds(pre);
            assert(cur[lo as int] == s@[lo as int]);
            assert(cur[hi as int] == s@[hi as int]);
        }
        if s[i].world_x < s[lo].world_x {
            lo = i;
        }
        if s[i].world_x >= s[hi].world_x {
            hi = i;
        }
        i = i + 1;
    }
    assert(s@.subrange(0, s@.len() as int) == s@);
    (lo, hi)
}

/// Chooses the labels of the clusters, left to right. A cluster without a
/// segment edge that lies closer than `spacing_min` pixels to the last
/// cluster that got labels gets none; a cluster of one tick gets a centred
/// label, a larger one a label on each side for its least and greatest
/// data values.
pub fn select_label_ticks(clusters: &Vec<TickCluster>, spacing_min: i32) -> (r: Vec<LabelCandidate>)
    requires
        forall|k: int| 0 <= k < clusters@.len() ==> (#[trigger] clusters@[k]).ticks@.len() > 0,
    ensures
        r@ == selected(clusters@, spacing_min as int, clusters@.len() as int),
{
    let mut out: Vec<LabelCandidate> = Vec::new();
    let mut last: Option<i32> = None;
    let mut k: usize = 0;
    while k < clusters.len()
        invariant
            k <= clusters@.len(),
            forall|q: int| 0 <= q < clusters@.len() ==> (#[trigger] clusters@[q]).ticks@.len() > 0,
            out@ == selected(clusters@, spacing_min as int, k as int),
            last_drawn(clusters@, spacing_min as int, k as int) == match last {
                Some(p) => Some(p as int),
                None => None::<int>,
            },
        decreases clusters.len() - k,
    {
        let c = &clusters[k];
        let draw = if c.has_edge {
            true
        } else {
            match last {
                None => true,
                Some(p) => {
                    let d: i64 = c.screen_x as i64 - p as i64;
                    let dist: i64 = if d >= 0 { d } else { -d };
                    spacing_min as i64 <= dist
                },
            }
        };
        if draw {
            let ghost before = out@;
            if c.ticks.len() == 1 {
                out.push(LabelCandidate { tick: c.ticks[0], side: TickSide::Center, cluster: k });
            } else {
                let (lo, hi) = extreme_indices(&c.ticks);
                proof {
                    lemma_extreme_index_bounds(c.ticks@);
                }
                out.push(LabelCandidate { tick: c.ticks[lo], side: TickSide::Left, cluster: k });
                out.push(LabelCandidate { tick: c.ticks[hi], side: TickSide::Right, cluster: k });
            }
            assert(out@ == before + labels_of(clusters@[k as int], k as int));
            last = Some(c.screen_x);
        } else {
            assert(out@ == out@ + Seq::<LabelCandidate>::empty());
        }
        k = k + 1;
    }
    out
}

/// The screen region where the labels of an axis go.
#[derive(Clone, Copy, Debug, PartialEq, Eq, Structural)]
pub struct LabelArea {
    pub min_x: i32,
    pub min_y: i32,
    pub max_x: i32,
    pub max_y: i32,
}

/// A label to draw: the candidate it belongs to and its top-left corner.
#[derive(Clone, Copy, Debug, PartialEq, Eq, Structural)]
pub struct PlacedLabel {
    pub candidate: usize,
    pub x: i64,
    pub y: i64,
}

/// The labels to draw, and the thickness they need: the greatest label
/// height, 0 when none is drawn.
#[derive(Clone, Debug)]
pub struct LabelLayout {
    pub labels: Vec<PlacedLabel>,
    pub thickness: u32,
}

/// Left edge of a label of width `w` for its candidate.
pub open spec fn label_x(c: LabelCandidate, w: int) -> int {
    match c.side {
        TickSide::Center => c.tick.screen_x - w / 2,
        TickSide::Left => c.tick.screen_x - w - LABEL_GAP,
        TickSide::Right => c.tick.screen_x + LABEL_GAP,
    }
}

/// Top edge of a label of height `h`.
pub open spec fn label_y(area: LabelArea, placement: VPlacement, h: int) -> int {
    match placement {
        VPlacement::Bottom => area.min_y as int,
        VPlacement::Top => area.max_y - h,
    }
}

/// A label at `x` of width `w` reaches into the area.
pub open spec fn on_screen(x: int, w: int, area: LabelArea) -> bool {
    area.min_x <= x + w && x <= area.max_x
}

/// Whether candidate `k` is drawn: its text is not empty (`sizes[k]` holds
/// the measured width and height) and the label reaches into the area.
pub open spec fn is_placed(cands: Seq<LabelCandidate>, sizes: Seq<Option<(u32, u32)>>, area: LabelArea, k: int) -> bool {
    match sizes[k] {
        Some((w, _)) => on_screen(label_x(cands[k], w as int), w as int, area),
        None => false,
    }
}

/// The drawn labels among the first `k` candidates.
pub open spec fn placed(
    cands: Seq<LabelCandidate>,
    sizes: Seq<Option<(u32, u32)>>,
    area: LabelArea,
    placement: VPlacement,
    k: int,
) -> Seq<PlacedLabel>
    decreases k,
{
    if k <= 0 {
        Seq::empty()
    } else {
        let prev = placed(cands, sizes, area, placement, k - 1);
        match sizes[k - 1] {
            Some((w, h)) => if is_placed(cands, sizes, area, k - 1) {
                prev.push(
                    PlacedLabel {
                        candidate: (k - 1) as usize,
                        x: label_x(cands[k - 1], w as int) as i64,
                        y: label_y(area, placement, h as int) as i64,
                    },
                )
            } else {
                prev
            },
            None => prev,
        }
    }
}

/// The greatest height among the drawn labels of the first `k` candidates.
pub open spec fn thickness(cands: Seq<LabelCandidate>, sizes: Seq<Option<(u32, u32)>>, area: LabelArea, k: int) -> int
    decreases k,
{
    if k <= 0 {
        0
    } else {
        let prev = thickness(cands, sizes, area, k - 1);
        match sizes[k - 1] {
            Some((_, h)) => if is_placed(cands, sizes, area, k - 1) && h > prev {
                h as int
            } else {
                prev
            },
            None => prev,
        }
    }
}

/// Positions the labels of the candidates. `sizes[k]` is the measured
/// width and height of the text of candidate `k`, or `None` where its text
/// is empty, which draws nothing. A label that lies wholly left or right of
/// the area is dropped. The thickness is the greatest height of a drawn label.
pub fn layout_labels(
    cands: &Vec<LabelCandidate>,
    sizes: &Vec<Option<(u32, u32)>>,
    area: LabelArea,
    placement: VPlacement,
) -> (r: LabelLayout)
    requires
        sizes@.len() == cands@.len(),
    ensures
        r.labels@ == placed(cands@, sizes@, area, placement, cands@.len() as int),
        r.thickness == thickness(cands@, sizes@, area, cands@.len() as int),
{
    let mut labels: Vec<PlacedLabel> = Vec::new();
    let mut thick: u32 = 0;
    let mut k: usize = 0;
    while k < cands.len()
        invariant
            k <= cands@.len(),
            sizes@.len() == cands@.len(),
            labels@ == placed(cands@, sizes@, area, placement, k as int),
            thick == thickness(cands@, sizes@, area, k as int),
        decreases cands.len() - k,
    {
        match sizes[k] {
            Some((w, h)) => {
                let c = cands[k];
                let sx = c.tick.screen_x as i64;
                let wi = w as i64;
                let x: i64 = match c.side {
                    TickSide::Center => sx - wi / 2,
                    TickSide::Left => sx - wi - LABEL_GAP,
                    TickSide::Right => sx + LABEL_GAP,
                };
                if area.min_x as i64 <= x + wi && x <= area.max_x as i64 {
                    let y: i64 = match placement {
                        VPlacement::Bottom => area.min_y as i64,
                        VPlacement::Top => area.max_y as i64 - h as i64,
                    };
                    labels.push(PlacedLabel { candidate: k, x, y });
                    if h > thick {
                        thick = h;
                    }
                }
            },
            None => {},
        }
        k = k + 1;
    }
    LabelLayout { labels, thickness: thick }
}

/// The range of label spacings, in pixels: below `min` labels are hidden,
/// above `max` they are fully opaque.
#[derive(Clone, Copy, Debug, PartialEq, Eq, Structural)]
pub struct LabelSpacing {
    pub min: u32,
    pub max: u32,
}

/// The default label spacing of an axis: wider on the X axis, where labels
/// can get wide, than on the Y axis, where text is not very high.
pub fn default_label_spacing(axis: Axis) -> (r: LabelSpacing)
    ensures
        axis == Axis::X ==> r == (LabelSpacing { min: 60, max: 80 }),
        axis == Axis::Y ==> r == (LabelSpacing { min: 20, max: 30 }),
{
    match axis {
        Axis::X => LabelSpacing { min: 60, max: 80 },
        Axis::Y => LabelSpacing { min: 20, max: 30 },
    }
}

/// On an axis without segments: whether the label of a step is drawn, given
/// the pixel spacing between consecutive steps and the label's extent along
/// the axis. It is drawn when the spacing exceeds the minimum and the label
/// fits in the spacing.
pub fn regular_label_visible(spacing_px: u32, spacing_min: u32, extent_px: u32) -> (r: bool)
    ensures
        r == (spacing_px > spacing_min && extent_px <= spacing_px),
{
    if spacing_px <= spacing_min {
        return false;
    }
    extent_px <= spacing_px
}

/// Pixels added on each side of a label on the Y axis.
pub const SIDE_MARGIN: u64 = 4;

/// The extent of a label of size `(w, h)` along the axis: its width on the
/// X axis, its height on the Y axis.
pub open spec fn along_axis(axis: Axis, w: int, h: int) -> int {
    match axis {
        Axis::X => w,
        Axis::Y => h,
    }
}

/// The extent of a label of size `(w, h)` across the axis: its height on
/// the X axis, its width plus a side margin on each side on the Y axis.
pub open spec fn across_axis(axis: Axis, w: int, h: int) -> int {
    match axis {
        Axis::X => h,
        Axis::Y => w + 2 * SIDE_MARGIN,
    }
}

/// Whether the label of step `k` is drawn on an axis without segments: its
/// text is not empty, the steps lie more than `spacing_min` pixels apart,
/// and the label fits in that spacing along the axis.
pub open spec fn regular_drawn(
    axis: Axis,
    sizes: Seq<Option<(u32, u32)>>,
    spacings: Seq<u32>,
    spacing_min: u32,
    k: int,
) -> bool {
    match sizes[k] {
        Some((w, h)) => spacings[k] > spacing_min && along_axis(axis, w as int, h as int) <= spacings[k],
        None => false,
    }
}

/// The indices of the drawn labels among the first `k` steps.
pub open spec fn regular_placed(
    axis: Axis,
    sizes: Seq<Option<(u32, u32)>>,
    spacings: Seq<u32>,
    spacing_min: u32,
    k: int,
) -> Seq<usize>
    decreases k,
{
    if k <= 0 {
        Seq::empty()
    } else {
        let prev = regular_placed(axis, sizes, spacings, spacing_min, k - 1);
        if regular_drawn(axis, sizes, spacings, spacing_min, k - 1) {
            prev.push((k - 1) as usize)
        } else {
            prev
        }
    }
}

/// The greatest extent across the axis of the drawn labels among the first
/// `k` steps, 0 when none is drawn.
pub open spec fn regular_thickness(
    axis: Axis,
    sizes: Seq<Option<(u32, u32)>>,
    spacings: Seq<u32>,
    spacing_min: u32,
    k: int,
) -> int
    decreases k,
{
    if k <= 0 {
        0
    } else {
        let prev = regular_thickness(axis, sizes, spacings, spacing_min, k - 1);
        match sizes[k - 1] {
            Some((w, h)) => if regular_drawn(axis, sizes, spacings, spacing_min, k - 1)
                && across_axis(axis, w as int, h as int) > prev {
                across_axis(axis, w as int, h as int)
            } else {
                prev
            },
            None => prev,
        }
    }
}

proof fn lemma_regular_thickness_bounds(
    axis: Axis,
    sizes: Seq<Option<(u32, u32)>>,
    spacings: Seq<u32>,
    spacing_min: u32,
    k: int,
)
    ensures
        0 <= regular_thickness(axis, sizes, spacings, spacing_min, k) <= u32::MAX + 2 * SIDE_MARGIN,
    decreases k,
{
    if k > 0 {
        lemma_regular_thickness_bounds(axis, sizes, spacings, spacing_min, k - 1);
    }
}

/// The labels drawn on an axis without segments, and the thickness they need.
#[derive(Clone, Debug)]
pub struct RegularLayout {
    /// Indices of the steps whose labels are drawn, in order.
    pub drawn: Vec<usize>,
    /// The greatest extent across the axis of a drawn label, 0 when none is.
    pub thickness: u64,
}

/// Chooses the labels of the steps of an axis without segments.
/// `sizes[k]` is the measured width and height of the text of step `k`, or
/// `None` where its text is empty; `spacings[k]` is the pixel distance
/// between step `k` and its neighbours. A label is drawn when the spacing
/// exceeds `spacing_min` and the label fits in it along the axis; the
/// thickness is the greatest extent across the axis of a drawn label (on
/// the Y axis the width plus a side margin on each side).
pub fn layout_regular_labels(
    axis: Axis,
    sizes: &Vec<Option<(u32, u32)>>,
    spacings: &Vec<u32>,
    spacing_min: u32,
) -> (r: RegularLayout)
    requires
        spacings@.len() == sizes@.len(),
    ensures
        r.drawn@ == regular_placed(axis, sizes@, spacings@, spacing_min, sizes@.len() as int),
        r.thickness == regular_thickness(axis, sizes@, spacings@, spacing_min, sizes@.len() as int),
{
    let mut drawn: Vec<usize> = Vec::new();
    let mut thick: u64 = 0;
    let mut k: usize = 0;
    while k < sizes.len()
        invariant
            k <= sizes@.len(),
            spacings@.len() == sizes@.len(),
            drawn@ == regular_placed(axis, sizes@, spacings@, spacing_min, k as int),
            thick == regular_thickness(axis, sizes@, spacings@, spacing_min, k as int),
        decreases sizes.len() - k,
    {
        proof {
            lemma_regular_thickness_bounds(axis, sizes@, spacings@, spacing_min, k as int);
        }
        match sizes[k] {
            Some((w, h)) => {
                let spacing = spacings[k];
                let (along, across): (u64, u64) = match axis {
                    Axis::X => (w as u64, h as u64),
                    Axis::Y => (h as u64, w as u64 + 2 * SIDE_MARGIN),
                };
                if regular_label_visible(spacing, spacing_min, along as u32) {
                    drawn.push(k);
                    if across > thick {
                        thick = across;
                    }
                }
            },
            None => {},
        }
        k = k + 1;
    }
    RegularLayout { drawn, thickness: thick }
}

/// The width of a measured label, 0 for an empty one.
pub open spec fn width_of(size: Option<(u32, u32)>) -> int {
    match size {
        Some((w, _)) => w as int,
        None => 0,
    }
}

proof fn lemma_anchors_increase(s: Seq<ScreenTick>, threshold: int, cl: Seq<TickCluster>, k: int, q: int)
    requires
        threshold >= 0,
        is_leader_clustering(s, threshold, cl),
        0 <= k < q < cl.len(),
    ensures
        cl[k].screen_x < cl[q].screen_x,
    decreases q - k,
{
    assert(cl[q].screen_x - cl[q - 1].screen_x > threshold);
    if k < q - 1 {
        lemma_anchors_increase(s, threshold, cl, k, q - 1);
    }
}

proof fn lemma_last_drawn_is_anchor(cl: Seq<TickCluster>, spacing_min: int, k: int)
    requires
        0 <= k <= cl.len(),
    ensures
        last_drawn(cl, spacing_min, k) is Some ==> exists|j: int|
            0 <= j < k && last_drawn(cl, spacing_min, k) == Some(#[trigger] cl[j].screen_x as int),
    decreases k,
{
    if k > 0 {
        lemma_last_drawn_is_anchor(cl, spacing_min, k - 1);
    }
}

proof fn lemma_last_drawn_after(
    s: Seq<ScreenTick>,
    threshold: int,
    cl: Seq<TickCluster>,
    spacing_min: int,
    k1: int,
    k2: int,
)
    requires
        threshold >= 0,
        is_leader_clustering(s, threshold, cl),
        0 <= k1 < k2 <= cl.len(),
        is_drawn(cl, spacing_min, k1),
    ensures
        last_drawn(cl, spacing_min, k2) is Some,
        cl[k1].screen_x <= last_drawn(cl, spacing_min, k2)->Some_0,
    decreases k2 - k1,
{
    if k2 > k1 + 1 {
        lemma_last_drawn_after(s, threshold, cl, spacing_min, k1, k2 - 1);
        if draws(cl[k2 - 1], last_drawn(cl, spacing_min, k2 - 1), spacing_min) {
            lemma_anchors_increase(s, threshold, cl, k1, k2 - 1);
        }
    }
}

/// Shape of the labels chosen among clusters of one tick each.
proof fn lemma_selected_singletons(cl: Seq<TickCluster>, spacing_min: int, k: int)
    requires
        0 <= k <= cl.len() <= usize::MAX,
        forall|q: int| 0 <= q < cl.len() ==> (#[trigger] cl[q]).ticks@.len() == 1,
    ensures
        forall|i: int| 0 <= i < selected(cl, spacing_min, k).len() ==> {
            let e = #[trigger] selected(cl, spacing_min, k)[i];
            &&& 0 <= e.cluster < k
            &&& e.side == TickSide::Center
            &&& e.tick == cl[e.cluster as int].ticks@[0]
            &&& is_drawn(cl, spacing_min, e.cluster as int)
        },
        forall|i: int, j: int| 0 <= i < j < selected(cl, spacing_min, k).len() ==>
            (#[trigger] selected(cl, spacing_min, k)[i]).cluster < (#[trigger] selected(cl, spacing_min, k)[j]).cluster,
    decreases k,
{
    if k > 0 {
        lemma_selected_singletons(cl, spacing_min, k - 1);
        let prev = selected(cl, spacing_min, k - 1);
        let cur = selected(cl, spacing_min, k);
        let add = if is_drawn(cl, spacing_min, k - 1) {
            labels_of(cl[k - 1], k - 1)
        } else {
            Seq::empty()
        };
        assert(cur == prev + add);
        if is_drawn(cl, spacing_min, k - 1) {
            assert(add.len() == 1);
            assert(add[0].cluster == (k - 1) as usize);
        }
        assert forall|i: int| 0 <= i < cur.len() implies #[trigger] cur[i] == if i < prev.len() {
            prev[i]
        } else {
            add[i - prev.len()]
        } by {}
    }
}

proof fn lemma_strictly_increasing_bound(c: Seq<LabelCandidate>, n: int)
    requires
        n >= 0,
        forall|i: int| 0 <= i < c.len() ==> #[trigger] c[i].cluster < n,
        forall|i: int, j: int| 0 <= i < j < c.len() ==> (#[trigger] c[i]).cluster < (#[trigger] c[j]).cluster,
    ensures
        c.len() <= n,
    decreases c.len(),
{
    if c.len() > 0 {
        let d = c.drop_last();
        let m = c.len() - 1;
        assert(c[m].cluster < n);
        assert forall|i: int| 0 <= i < d.len() implies #[trigger] d[i].cluster < c.last().cluster by {
            assert(d[i] == c[i]);
        }
        assert forall|i: int, j: int| 0 <= i < j < d.len() implies (#[trigger] d[i]).cluster < (#[trigger] d[j]).cluster by {
            assert(d[i] == c[i] && d[j] == c[j]);
        }
        lemma_strictly_increasing_bound(d, c.last().cluster as int);
    }
}

/// Shape of the drawn labels.
proof fn lemma_placed_shape(
    cands: Seq<LabelCandidate>,
    sizes: Seq<Option<(u32, u32)>>,
    area: LabelArea,
    placement: VPlacement,
    k: int,
)
    requires
        0 <= k <= cands.len() <= usize::MAX,
        sizes.len() == cands.len(),
    ensures
        forall|i: int| 0 <= i < placed(cands, sizes, area, placement, k).len() ==> {
            let e = #[trigger] placed(cands, sizes, area, placement, k)[i];
            &&& 0 <= e.candidate < k
            &&& sizes[e.candidate as int] is Some
            &&& e.x == label_x(cands[e.candidate as int], width_of(sizes[e.candidate as int])) as i64
        },
        forall|i: int, j: int| 0 <= i < j < placed(cands, sizes, area, placement, k).len() ==>
            (#[trigger] placed(cands, sizes, area, placement, k)[i]).candidate
                < (#[trigger] placed(cands, sizes, area, placement, k)[j]).candidate,
    decreases k,
{
    if k > 0 {
        lemma_placed_shape(cands, sizes, area, placement, k - 1);
        let prev = placed(cands, sizes, area, placement, k - 1);
        let cur = placed(cands, sizes, area, placement, k);
        assert forall|i: int| 0 <= i < prev.len() implies #[trigger] cur[i] == prev[i] by {}
        if cur.len() > prev.len() {
            let e = cur[prev.len() as int];
            assert(e.candidate == (k - 1) as usize);
        }
    }
}

/// Where every cluster holds one tick and none holds a segment edge, and
/// `spacing_min` exceeds the width of every label, no two drawn labels
/// overlap: each one ends at or before the start of the next.
pub proof fn lemma_labels_do_not_overlap(
    s: Seq<ScreenTick>,
    threshold: int,
    cl: Seq<TickCluster>,
    spacing_min: int,
    sizes: Seq<Option<(u32, u32)>>,
    area: LabelArea,
    placement: VPlacement,
)
    requires
        threshold >= 0,
        is_leader_clustering(s, threshold, cl),
        cl.len() <= usize::MAX,
        forall|q: int| 0 <= q < cl.len() ==> (#[trigger] cl[q]).ticks@.len() == 1 && !cl[q].has_edge,
        sizes.len() == selected(cl, spacing_min, cl.len() as int).len(),
        forall|q: int| 0 <= q < sizes.len() ==> width_of(#[trigger] sizes[q]) < spacing_min,
    ensures
        ({
            let cands = selected(cl, spacing_min, cl.len() as int);
            let labels = placed(cands, sizes, area, placement, cands.len() as int);
            forall|a: int, b: int| 0 <= a < b < labels.len() ==>
                #[trigger] labels[a].x + width_of(sizes[labels[a].candidate as int]) <= #[trigger] labels[b].x
        }),
{
    let n = cl.len() as int;
    let cands = selected(cl, spacing_min, n);
    let labels = placed(cands, sizes, area, placement, cands.len() as int);
    lemma_selected_singletons(cl, spacing_min, n);
    assert(cands.len() <= usize::MAX) by {
        assert forall|i: int| 0 <= i < cands.len() implies #[trigger] cands[i].cluster < n by {}
        lemma_strictly_increasing_bound(cands, n);
    }
    lemma_placed_shape(cands, sizes, area, placement, cands.len() as int);
    assert forall|a: int, b: int| 0 <= a < b < labels.len() implies
        #[trigger] labels[a].x + width_of(sizes[labels[a].candidate as int]) <= #[trigger] labels[b].x by {
        let ca = labels[a].candidate as int;
        let cb = labels[b].candidate as int;
        assert(ca < cb);
        lemma_clusters_apart(s, threshold, cl, spacing_min, cands[ca].cluster as int, cands[cb].cluster as int);
        let wa = width_of(sizes[ca]);
        let wb = width_of(sizes[cb]);
        let x1 = cl[cands[ca].cluster as int].screen_x as int;
        let x2 = cl[cands[cb].cluster as int].screen_x as int;
        assert(is_cluster(cl[cands[ca].cluster as int], threshold));
        assert(is_cluster(cl[cands[cb].cluster as int], threshold));
        assert(cands[ca].tick.screen_x == x1);
        assert(cands[cb].tick.screen_x == x2);
        assert(wa < spacing_min && wb < spacing_min);
        assert(labels[a].x == x1 - wa / 2);
        assert(labels[b].x == x2 - wb / 2);
        assert(x1 - wa / 2 + wa <= x2 - wb / 2) by (nonlinear_arith)
            requires
                wa >= 0,
                wb >= 0,
                wa < spacing_min,
                wb < spacing_min,
                x2 - x1 >= spacing_min,
        ;
    }
}

/// Two drawn clusters, the later without a segment edge, lie at least
/// `spacing_min` pixels apart.
proof fn lemma_clusters_apart(s: Seq<ScreenTick>, threshold: int, cl: Seq<TickCluster>, spacing_min: int, k1: int, k2: int)
    requires
        threshold >= 0,
        is_leader_clustering(s, threshold, cl),
        0 <= k1 < k2 < cl.len(),
        is_drawn(cl, spacing_min, k1),
        is_drawn(cl, spacing_min, k2),
        !cl[k2].has_edge,
    ensures
        cl[k2].screen_x - cl[k1].screen_x >= spacing_min,
{
    lemma_last_drawn_after(s, threshold, cl, spacing_min, k1, k2);
    lemma_last_drawn_is_anchor(cl, spacing_min, k2);
    let p = last_drawn(cl, spacing_min, k2)->Some_0;
    let j = choose|j: int| 0 <= j < k2 && last_drawn(cl, spacing_min, k2) == Some(#[trigger] cl[j].screen_x as int);
    lemma_anchors_increase(s, threshold, cl, j, k2);
}
} // verus!
