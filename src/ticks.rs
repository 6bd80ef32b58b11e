//! Screen-space ticks and their grouping into clusters of nearby ticks.
use vstd::prelude::*;
use crate::interval::{Coord, Interval};
use crate::segments::SegmentedAxis;

verus! {

broadcast use vstd::seq_lib::group_to_multiset_ensures;

/// A tick candidate: its data value, its projected screen position (whole
/// pixels) and whether it is a boundary of the segment that produced it.
#[derive(Clone, Copy, Debug, PartialEq, Eq, Structural)]
pub struct ScreenTick {
    pub world_x: i64,
    pub screen_x: i32,
    pub is_segment_edge: bool,
}

pub open spec fn sorted_by_screen(s: Seq<ScreenTick>) -> bool {
    forall|i: int, j: int| 0 <= i < j < s.len() ==> #[trigger] s[i].screen_x <= #[trigger] s[j].screen_x
}

/// Whether `x` is one of the two bounds of `seg`.
pub open spec fn is_edge_of(seg: Interval, x: i64) -> bool {
    seg.start == Coord::Finite(x) || seg.end == Coord::Finite(x)
}

/// The candidates of one segment: each tick whose projection is known, in
/// the order of the ticks.
pub open spec fn segment_candidates(seg: Interval, ticks: Seq<i64>, proj: Seq<Option<i32>>) -> Seq<ScreenTick>
    decreases ticks.len(),
{
    if ticks.len() == 0 {
        Seq::empty()
    } else {
        let rest = segment_candidates(seg, ticks.drop_last(), proj.drop_last());
        match proj.last() {
            Some(x) => rest.push(
                ScreenTick { world_x: ticks.last(), screen_x: x, is_segment_edge: is_edge_of(seg, ticks.last()) },
            ),
            None => rest,
        }
    }
}

/// The candidates of all segments, segment after segment.
pub open spec fn all_candidates(segs: Seq<Interval>, ticks: Seq<Seq<i64>>, proj: Seq<Seq<Option<i32>>>) -> Seq<ScreenTick>
    decreases ticks.len(),
{
    if ticks.len() == 0 {
        Seq::empty()
    } else {
        let n = ticks.len() - 1;
        all_candidates(segs, ticks.drop_last(), proj.drop_last()) + segment_candidates(segs[n], ticks[n], proj[n])
    }
}

pub open spec fn views_of_ticks(v: Seq<Vec<i64>>) -> Seq<Seq<i64>> {
    v.map_values(|t: Vec<i64>| t@)
}

pub open spec fn views_of_projections(v: Seq<Vec<Option<i32>>>) -> Seq<Seq<Option<i32>>> {
    v.map_values(|t: Vec<Option<i32>>| t@)
}

/// The screen distance, in pixels, that ticks should keep on average.
pub const DESIRED_PIXEL_SPACING: u64 = 80;

/// The step hint in data units: data units per pixel times the desired
/// pixel spacing, for a view of `span` data units over `width_px` pixels.
/// `None` for a view of no width, where the scale is undefined.
pub fn estimate_step_hint(span: u64, width_px: u32) -> (r: Option<u64>)
    ensures
        width_px == 0 ==> r is None,
        width_px > 0 ==> r == Some(
            if span * DESIRED_PIXEL_SPACING / (width_px as int) > u64::MAX {
                u64::MAX
            } else {
                (span * DESIRED_PIXEL_SPACING / (width_px as int)) as u64
            },
        ),
{
    if width_px == 0 {
        return None;
    }
    let wide: u128 = span as u128;
    assert(wide * 80 <= 80 * (u64::MAX as int)) by (nonlinear_arith)
        requires
            wide <= u64::MAX,
    ;
    let product: u128 = wide * (DESIRED_PIXEL_SPACING as u128);
    let scaled: u128 = product / (width_px as u128);
    if scaled > u64::MAX as u128 {
        Some(u64::MAX)
    } else {
        Some(scaled as u64)
    }
}

/// Sorts ticks by screen position.
pub fn sort_by_screen(v: Vec<ScreenTick>) -> (r: Vec<ScreenTick>)
    ensures
        sorted_by_screen(r@),
        r@.to_multiset() == v@.to_multiset(),
{
    let mut out: Vec<ScreenTick> = Vec::new();
    let mut i: usize = 0;
    while i < v.len()
        invariant
            i <= v@.len(),
            sorted_by_screen(out@),
            out@.to_multiset() == v@.subrange(0, i as int).to_multiset(),
        decreases v.len() - i,
    {
        let t = v[i];
        let mut k: usize = 0;
        while k < out.len() && out[k].screen_x <= t.screen_x
            invariant
                k <= out@.len(),
                forall|j: int| 0 <= j < k ==> #[trigger] out@[j].screen_x <= t.screen_x,
            decreases out.len() - k,
        {
            k = k + 1;
        }
        let ghost before = out@;
        out.insert(k, t);
        proof {
            vstd::seq_lib::to_multiset_insert(before, k as int, t);
            assert(v@.subrange(0, i + 1) == v@.subrange(0, i as int).push(t));
            assert forall|a: int, b: int| 0 <= a < b < out@.len() implies #[trigger] out@[a].screen_x
                <= #[trigger] out@[b].screen_x by {
                if b == k {
                    assert(out@[a] == before[a]);
                } else if a == k {
                    assert(out@[b] == before[b - 1]);
                    assert(before[k as int].screen_x > t.screen_x);
                } else if a < k && b < k {
                    assert(out@[a] == before[a] && out@[b] == before[b]);
                } else if a < k {
                    assert(out@[a] == before[a] && out@[b] == before[b - 1]);
                } else {
                    assert(out@[a] == before[a - 1] && out@[b] == before[b - 1]);
                }
            }
        }
        i = i + 1;
    }
    assert(v@.subrange(0, v@.len() as int) == v@);
    out
}

/// The screen ticks of a segmented axis, sorted by screen position.
///
/// `ticks[i]` are the ticks of `axis.segments[i]`, and `projected[i][j]` is the
/// screen position of `ticks[i][j]` as the host's transform gave it, or
/// `None` where the transform gave no finite position (that tick is dropped).
/// A tick is a segment edge when it equals a bound of its segment.
pub fn compute_segmented_x_ticks(
    axis: &SegmentedAxis,
    ticks: &Vec<Vec<i64>>,
    projected: &Vec<Vec<Option<i32>>>,
) -> (r: Vec<ScreenTick>)
    requires
        ticks@.len() <= axis.segments@.len(),
        projected@.len() == ticks@.len(),
        forall|i: int| 0 <= i < ticks@.len() ==> (#[trigger] projected@[i])@.len() == ticks@[i]@.len(),
    ensures
        sorted_by_screen(r@),
        r@.to_multiset() == all_candidates(axis.segments@, views_of_ticks(ticks@), views_of_projections(projected@)).to_multiset(),
{
    let segments = &axis.segments;
    let ghost tv = views_of_ticks(ticks@);
    let ghost pv = views_of_projections(projected@);
    let mut out: Vec<ScreenTick> = Vec::new();
    let mut i: usize = 0;
    while i < ticks.len()
        invariant
            i <= ticks@.len(),
            ticks@.len() <= segments@.len(),
            projected@.len() == ticks@.len(),
            forall|k: int| 0 <= k < ticks@.len() ==> (#[trigger] projected@[k])@.len() == ticks@[k]@.len(),
            tv == views_of_ticks(ticks@),
            pv == views_of_projections(projected@),
            out@ == all_candidates(segments@, tv.subrange(0, i as int), pv.subrange(0, i as int)),
        decreases ticks.len() - i,
    {
        let seg = &segments[i];
        let seg_ticks = &ticks[i];
        let seg_proj = &projected[i];
        let ghost base = out@;
        let mut j: usize = 0;
        while j < seg_ticks.len()
            invariant
                j <= seg_ticks@.len(),
                seg_proj@.len() == seg_ticks@.len(),
                out@ == base + segment_candidates(*seg, seg_ticks@.subrange(0, j as int), seg_proj@.subrange(0, j as int)),
            decreases seg_ticks.len() - j,
        {
            let world_x = seg_ticks[j];
            assert(seg_ticks@.subrange(0, j + 1).drop_last() == seg_ticks@.subrange(0, j as int));
            assert(seg_proj@.subrange(0, j + 1).drop_last() == seg_proj@.subrange(0, j as int));
            match seg_proj[j] {
                Some(screen_x) => {
                    let edge = seg.start == Coord::Finite(world_x) || seg.end == Coord::Finite(world_x);
                    out.push(ScreenTick { world_x, screen_x, is_segment_edge: edge });
                },
                None => {},
            }
            j = j + 1;
        }
        proof {
            assert(seg_ticks@.subrange(0, seg_ticks@.len() as int) == seg_ticks@);
            assert(seg_proj@.subrange(0, seg_proj@.len() as int) == seg_proj@);
            assert(tv.subrange(0, i + 1).drop_last() == tv.subrange(0, i as int));
            assert(pv.subrange(0, i + 1).drop_last() == pv.subrange(0, i as int));
            assert(tv[i as int] == seg_ticks@);
            assert(pv[i as int] == seg_proj@);
        }
        i = i + 1;
    }
    assert(tv.subrange(0, ticks@.len() as int) == tv);
    assert(pv.subrange(0, ticks@.len() as int) == pv);
    sort_by_screen(out)
}

/// A group of ticks that land close together on screen.
#[derive(Clone, Debug)]
pub struct TickCluster {
    /// The anchor: the screen position of the first member.
    pub screen_x: i32,
    pub ticks: Vec<ScreenTick>,
    /// Whether any member is a segment edge.
    pub has_edge: bool,
}

/// The members of all clusters, cluster after cluster.
pub open spec fn concat(cl: Seq<Seq<ScreenTick>>) -> Seq<ScreenTick>
    decreases cl.len(),
{
    if cl.len() == 0 {
        Seq::empty()
    } else {
        concat(cl.drop_last()) + cl.last()
    }
}

pub open spec fn members(cl: Seq<TickCluster>) -> Seq<Seq<ScreenTick>> {
    cl.map_values(|c: TickCluster| c.ticks@)
}

pub open spec fn any_edge(s: Seq<ScreenTick>) -> bool {
    exists|i: int| 0 <= i < s.len() && (#[trigger] s[i]).is_segment_edge
}

/// One cluster of a leader clustering: not empty, anchored at its first
/// member, every other member at most `threshold` pixels right of the anchor.
pub open spec fn is_cluster(c: TickCluster, threshold: int) -> bool {
    &&& c.ticks@.len() > 0
    &&& c.screen_x == c.ticks@[0].screen_x
    &&& forall|j: int| 0 < j < c.ticks@.len() ==> (#[trigger] c.ticks@[j]).screen_x - c.screen_x <= threshold
    &&& c.has_edge == any_edge(c.ticks@)
}

/// `cl` is the leader clustering of the sorted ticks `s`: the clusters hold
/// `s` in order, and each cluster after the first starts with a tick more
/// than `threshold` pixels right of the anchor of the cluster before.
pub open spec fn is_leader_clustering(s: Seq<ScreenTick>, threshold: int, cl: Seq<TickCluster>) -> bool {
    &&& concat(members(cl)) == s
    &&& forall|k: int| 0 <= k < cl.len() ==> is_cluster(#[trigger] cl[k], threshold)
    &&& forall|k: int| 0 < k < cl.len() ==> (#[trigger] cl[k]).screen_x - cl[k - 1].screen_x > threshold
}

/// Groups screen-sorted ticks into clusters by leader: a tick joins the
/// current cluster while it lies at most `threshold` pixels from the
/// cluster's first member, and starts a new cluster otherwise.
pub fn cluster_overlapping_ticks(ticks: Vec<ScreenTick>, threshold: i32) -> (r: Vec<TickCluster>)
    requires
        sorted_by_screen(ticks@),
    ensures
        is_leader_clustering(ticks@, threshold as int, r@),
{
    let mut clusters: Vec<TickCluster> = Vec::new();
    let mut i: usize = 0;
    while i < ticks.len()
        invariant
            i <= ticks@.len(),
            sorted_by_screen(ticks@),
            concat(members(clusters@)) == ticks@.subrange(0, i as int),
            forall|k: int| 0 <= k < clusters@.len() ==> is_cluster(#[trigger] clusters@[k], threshold as int),
            forall|k: int| 0 < k < clusters@.len() ==> (#[trigger] clusters@[k]).screen_x - clusters@[k - 1].screen_x > threshold,
            clusters@.len() > 0 && i < ticks@.len() ==> ticks@[i as int].screen_x - clusters@[clusters@.len() - 1].screen_x > threshold,
        decreases ticks.len() - i,
    {
        let base_x = ticks[i].screen_x;
        let start = i;
        let mut group: Vec<ScreenTick> = Vec::new();
        group.push(ticks[i]);
        let mut has_edge = ticks[i].is_segment_edge;
        i = i + 1;
        proof {
            assert(group@ == ticks@.subrange(start as int, i as int));
            assert(group@[0] == ticks@[start as int]);
            assert(group@.len() == 1);
            if has_edge {
                assert(group@[0].is_segment_edge);
            } else {
                assert(!any_edge(group@));
            }
        }
        while i < ticks.len() && (ticks[i].screen_x as i64) - (base_x as i64) <= threshold as i64
            invariant
                start < i <= ticks@.len(),
                base_x == ticks@[start as int].screen_x,
                group@ == ticks@.subrange(start as int, i as int),
                forall|j: int| 0 < j < group@.len() ==> (#[trigger] group@[j]).screen_x - base_x <= threshold,
                has_edge == any_edge(group@),
            decreases ticks.len() - i,
        {
            let ghost before = group@;
            group.push(ticks[i]);
            proof {
                if has_edge {
                    let w = choose|w: int| 0 <= w < before.len() && (#[trigger] before[w]).is_segment_edge;
                    assert(group@[w] == before[w]);
                }
                if any_edge(group@) && !ticks@[i as int].is_segment_edge {
                    let w = choose|w: int| 0 <= w < group@.len() && (#[trigger] group@[w]).is_segment_edge;
                    assert(before[w] == group@[w]);
                }
                assert(group@[group@.len() - 1] == ticks@[i as int]);
            }
            has_edge = has_edge || ticks[i].is_segment_edge;
            i = i + 1;
        }
        let ghost before = clusters@;
        let c = TickCluster { screen_x: base_x, ticks: group, has_edge };
        clusters.push(c);
        proof {
            assert(members(clusters@).drop_last() == members(before));
            assert(members(clusters@).last() == c.ticks@);
            assert(ticks@.subrange(0, i as int) == ticks@.subrange(0, start as int) + ticks@.subrange(start as int, i as int));
            assert(clusters@[clusters@.len() - 1] == c);
            assert forall|k: int| 0 <= k < clusters@.len() implies is_cluster(#[trigger] clusters@[k], threshold as int) by {
                if k < before.len() {
                    assert(clusters@[k] == before[k]);
                }
            }
            assert forall|k: int| 0 < k < clusters@.len() implies (#[trigger] clusters@[k]).screen_x - clusters@[k - 1].screen_x > threshold by {
                if k < before.len() {
                    assert(clusters@[k] == before[k]);
                    assert(clusters@[k - 1] == before[k - 1]);
                } else {
                    assert(clusters@[k - 1] == before[k - 1]);
                }
            }
        }
    }
    assert(ticks@.subrange(0, ticks@.len() as int) == ticks@);
    clusters
}

proof fn lemma_concat_index(cl: Seq<Seq<ScreenTick>>, k: int, j: int)
    requires
        0 <= k < cl.len(),
        0 <= j < cl[k].len(),
    ensures
        concat(cl.subrange(0, k)).len() + cl[k].len() <= concat(cl).len(),
        concat(cl)[concat(cl.subrange(0, k)).len() + j] == cl[k][j],
    decreases cl.len(),
{
    let n = cl.len() - 1;
    if k == n {
        assert(cl.subrange(0, k) == cl.drop_last());
    } else {
        assert(cl.drop_last().subrange(0, k) == cl.subrange(0, k));
        lemma_concat_index(cl.drop_last(), k, j);
    }
}

proof fn lemma_concat_singletons(cl: Seq<Seq<ScreenTick>>)
    requires
        forall|k: int| 0 <= k < cl.len() ==> (#[trigger] cl[k]).len() == 1,
    ensures
        concat(cl).len() == cl.len(),
    decreases cl.len(),
{
    if cl.len() > 0 {
        lemma_concat_singletons(cl.drop_last());
    }
}

/// Ticks that all lie within `threshold` pixels of the first one form a
/// single cluster that holds them all.
pub proof fn lemma_cluster_all_close(s: Seq<ScreenTick>, threshold: int, cl: Seq<TickCluster>)
    requires
        s.len() > 0,
        forall|i: int| 0 <= i < s.len() ==> (#[trigger] s[i]).screen_x - s[0].screen_x <= threshold,
        is_leader_clustering(s, threshold, cl),
    ensures
        cl.len() == 1,
        cl[0].ticks@ == s,
{
    let m = members(cl);
    if cl.len() == 0 {
        assert(concat(m).len() == 0);
    }
    assert(cl.subrange(0, 0) =~= Seq::<TickCluster>::empty());
    assert(m.subrange(0, 0) =~= Seq::<Seq<ScreenTick>>::empty());
    assert(is_cluster(cl[0], threshold));
    lemma_concat_index(m, 0, 0);
    assert(cl[0].screen_x == s[0].screen_x);
    if cl.len() >= 2 {
        assert(is_cluster(cl[1], threshold));
        lemma_concat_index(m, 1, 0);
        let o = concat(m.subrange(0, 1)).len() as int;
        assert(cl[1].screen_x == s[o].screen_x);
        assert(cl[1].screen_x - cl[0].screen_x > threshold);
    }
    assert(m.drop_last() =~= Seq::<Seq<ScreenTick>>::empty());
    assert(concat(m) == concat(m.drop_last()) + m[0]);
}

/// Ticks that lie pairwise more than `threshold` pixels apart form one
/// cluster each.
pub proof fn lemma_cluster_all_apart(s: Seq<ScreenTick>, threshold: int, cl: Seq<TickCluster>)
    requires
        forall|i: int, j: int| 0 <= i < j < s.len() ==> #[trigger] s[j].screen_x - #[trigger] s[i].screen_x > threshold,
        is_leader_clustering(s, threshold, cl),
    ensures
        cl.len() == s.len(),
        forall|k: int| 0 <= k < cl.len() ==> (#[trigger] cl[k]).ticks@ == seq![s[k]],
{
    let m = members(cl);
    assert forall|k: int| 0 <= k < cl.len() implies (#[trigger] m[k]).len() == 1 by {
        assert(is_cluster(cl[k], threshold));
        lemma_concat_index(m, k, 0);
        if m[k].len() >= 2 {
            lemma_concat_index(m, k, 1);
            let o = concat(m.subrange(0, k)).len() as int;
            assert(s[o + 1].screen_x - s[o].screen_x > threshold);
        }
    }
    lemma_concat_singletons(m);
    assert forall|k: int| 0 <= k < cl.len() implies (#[trigger] cl[k]).ticks@ == seq![s[k]] by {
        assert(m[k].len() == 1);
        lemma_concat_index(m, k, 0);
        let sub = m.subrange(0, k);
        assert forall|q: int| 0 <= q < sub.len() implies (#[trigger] sub[q]).len() == 1 by {
            assert(sub[q] == m[q]);
        }
        lemma_concat_singletons(sub);
        assert(cl[k].ticks@ =~= seq![s[k]]);
    }
}

} // verus!
