//! Sanitising a list of visible ranges into axis segments, and the ticks of
//! each segment.
use vstd::prelude::*;
use vstd::arithmetic::div_mod::{lemma_fundamental_div_mod, lemma_mod_add_multiples_vanish};
use crate::interval::{Coord, Interval};
use crate::nice::{nice_step, nice_step_spec};

verus! {

/// Whether some interval of `segs` holds the point `p / 2`.
pub open spec fn covers(segs: Seq<Interval>, p: int) -> bool {
    exists|i: int| 0 <= i < segs.len() && #[trigger] segs[i].holds_half(p)
}

/// Whether some non-empty interval of `segs` holds the point `p / 2`.
pub open spec fn covers_nonempty(segs: Seq<Interval>, p: int) -> bool {
    exists|i: int| 0 <= i < segs.len() && !segs[i].is_empty_spec() && #[trigger] segs[i].holds_half(p)
}

/// Segments in canonical form: each well formed and non-empty, and each ending
/// strictly before the next one starts.
pub open spec fn is_canonical(segs: Seq<Interval>) -> bool {
    &&& forall|i: int| 0 <= i < segs.len() ==> (#[trigger] segs[i]).wf() && !segs[i].is_empty_spec()
    &&& forall|i: int, j: int| 0 <= i < j < segs.len() ==> #[trigger] segs[i].end.lt(#[trigger] segs[j].start)
}

pub open spec fn sorted_by_start(segs: Seq<Interval>) -> bool {
    forall|i: int, j: int| 0 <= i < j < segs.len() ==> #[trigger] segs[i].start.le(#[trigger] segs[j].start)
}

proof fn lemma_covers_insert(s: Seq<Interval>, k: int, v: Interval, p: int)
    requires
        0 <= k <= s.len(),
    ensures
        covers(s.insert(k, v), p) == (covers(s, p) || v.holds_half(p)),
{
    let t = s.insert(k, v);
    if covers(s, p) {
        let i = choose|i: int| 0 <= i < s.len() && #[trigger] s[i].holds_half(p);
        if i < k {
            assert(t[i] == s[i]);
        } else {
            assert(t[i + 1] == s[i]);
        }
    }
    if v.holds_half(p) {
        assert(t[k] == v);
    }
    if covers(t, p) {
        let i = choose|i: int| 0 <= i < t.len() && #[trigger] t[i].holds_half(p);
        if i < k {
            assert(t[i] == s[i]);
        } else if i > k {
            assert(t[i] == s[i - 1]);
        }
    }
}

proof fn lemma_covers_push(s: Seq<Interval>, v: Interval, p: int)
    ensures
        covers(s.push(v), p) == (covers(s, p) || v.holds_half(p)),
{
    assert(s.push(v) == s.insert(s.len() as int, v));
    lemma_covers_insert(s, s.len() as int, v, p);
}

proof fn lemma_covers_nonempty_push(s: Seq<Interval>, v: Interval, p: int)
    ensures
        covers_nonempty(s.push(v), p) == (covers_nonempty(s, p) || (!v.is_empty_spec()
            && v.holds_half(p))),
{
    let t = s.push(v);
    if covers_nonempty(s, p) {
        let i = choose|i: int| 0 <= i < s.len() && !s[i].is_empty_spec() && #[trigger] s[i].holds_half(p);
        assert(t[i] == s[i]);
    }
    if !v.is_empty_spec() && v.holds_half(p) {
        assert(t[s.len() as int] == v);
    }
}

/// Sanitises a list of intervals: drops the empty ones, sorts the rest by
/// start and merges those that overlap or touch.
fn sanitize(segments: Vec<Interval>) -> (r: Vec<Interval>)
    requires
        forall|i: int| 0 <= i < segments@.len() ==> (#[trigger] segments@[i]).wf(),
    ensures
        is_canonical(r@),
        forall|p: int| covers(r@, p) == covers_nonempty(segments@, p),
{
    // 1. drop empty intervals, and 2. insert the others in order of start
    let mut sorted: Vec<Interval> = Vec::new();
    let mut i: usize = 0;
    while i < segments.len()
        invariant
            i <= segments.len(),
            forall|j: int| 0 <= j < segments@.len() ==> (#[trigger] segments@[j]).wf(),
            sorted_by_start(sorted@),
            forall|j: int| 0 <= j < sorted@.len() ==> (#[trigger] sorted@[j]).wf() && !sorted@[j].is_empty_spec(),
            forall|p: int| covers(sorted@, p) == covers_nonempty(segments@.subrange(0, i as int), p),
        decreases segments.len() - i,
    {
        let iv = segments[i];
        assert(segments@.subrange(0, i + 1) == segments@.subrange(0, i as int).push(iv));
        if !iv.is_empty() {
            let mut k: usize = 0;
            while k < sorted.len() && sorted[k].start.less_eq(&iv.start)
                invariant
                    k <= sorted.len(),
                    forall|j: int| 0 <= j < k ==> #[trigger] sorted@[j].start.le(iv.start),
                decreases sorted.len() - k,
            {
                k = k + 1;
            }
            let ghost before = sorted@;
            sorted.insert(k, iv);
            assert(forall|j: int| k < j < sorted@.len() ==> !before[j - 1].start.le(iv.start)
                ==> #[trigger] sorted@[j] == before[j - 1]);
            assert forall|a: int, b: int| 0 <= a < b < sorted@.len() implies #[trigger] sorted@[a].start.le(
                #[trigger] sorted@[b].start) by {
                if b == k {
                    assert(sorted@[a] == before[a]);
                } else if a == k {
                    assert(sorted@[b] == before[b - 1]);
                    assert(!before[k as int].start.le(iv.start));
                    assert(before[k as int].start.le(before[b - 1].start) || b - 1 == k);
                } else if a < k && b < k {
                    assert(sorted@[a] == before[a] && sorted@[b] == before[b]);
                } else if a < k {
                    assert(sorted@[a] == before[a] && sorted@[b] == before[b - 1]);
                } else {
                    assert(sorted@[a] == before[a - 1] && sorted@[b] == before[b - 1]);
                }
            }
            assert forall|j: int| 0 <= j < sorted@.len() implies (#[trigger] sorted@[j]).wf()
                && !sorted@[j].is_empty_spec() by {
                if j < k {
                    assert(sorted@[j] == before[j]);
                } else if j > k {
                    assert(sorted@[j] == before[j - 1]);
                }
            }
            assert forall|p: int| covers(sorted@, p) == covers_nonempty(
                segments@.subrange(0, i + 1),
                p,
            ) by {
                lemma_covers_insert(before, k as int, iv, p);
                lemma_covers_nonempty_push(segments@.subrange(0, i as int), iv, p);
            }
        } else {
            assert forall|p: int| covers(sorted@, p) == covers_nonempty(
                segments@.subrange(0, i + 1),
                p,
            ) by {
                lemma_covers_nonempty_push(segments@.subrange(0, i as int), iv, p);
            }
        }
        i = i + 1;
    }
    assert(segments@.subrange(0, segments@.len() as int) == segments@);

    // 3. merge intervals that overlap or touch
    let mut merged: Vec<Interval> = Vec::new();
    let mut i: usize = 0;
    while i < sorted.len()
        invariant
            i <= sorted.len(),
            sorted_by_start(sorted@),
            forall|j: int| 0 <= j < sorted@.len() ==> (#[trigger] sorted@[j]).wf() && !sorted@[j].is_empty_spec(),
            is_canonical(merged@),
            i > 0 ==> merged@.len() > 0,
            merged@.len() > 0 ==> forall|j: int|
                i <= j < sorted@.len() ==> merged@[merged@.len() - 1].start.le(#[trigger] sorted@[j].start),
            forall|p: int| covers(merged@, p) == covers(sorted@.subrange(0, i as int), p),
        decreases sorted.len() - i,
    {
        let iv = sorted[i];
        assert(sorted@.subrange(0, i + 1) == sorted@.subrange(0, i as int).push(iv));
        let n = merged.len();
        if n > 0 && iv.start.less_eq(&merged[n - 1].end) {
            let last = merged[n - 1];
            let grown = Interval { start: last.start, end: last.end.max(iv.end) };
            let ghost before = merged@;
            merged.set(n - 1, grown);
            assert(merged@ == before.drop_last().push(grown));
            assert(last.start.lt(last.end));
            assert(grown.wf() && !grown.is_empty_spec());
            assert forall|j: int| 0 <= j < merged@.len() implies (#[trigger] merged@[j]).wf()
                && !merged@[j].is_empty_spec() by {
                if j < n - 1 {
                    assert(merged@[j] == before[j]);
                }
            }
            assert forall|p: int| covers(merged@, p) == covers(sorted@.subrange(0, i + 1), p) by {
                lemma_covers_push(before.drop_last(), grown, p);
                lemma_covers_push(before.drop_last(), last, p);
                assert(before.drop_last().push(last) == before);
                lemma_covers_push(sorted@.subrange(0, i as int), iv, p);
            }
            assert forall|a: int, b: int| 0 <= a < b < merged@.len() implies #[trigger] merged@[a].end.lt(
                #[trigger] merged@[b].start) by {
                assert(merged@[a] == before[a]);
                if b < n - 1 {
                    assert(merged@[b] == before[b]);
                }
            }
        } else {
            let ghost before = merged@;
            merged.push(iv);
            assert forall|j: int| 0 <= j < merged@.len() implies (#[trigger] merged@[j]).wf()
                && !merged@[j].is_empty_spec() by {
                if j < n {
                    assert(merged@[j] == before[j]);
                }
            }
            assert forall|p: int| covers(merged@, p) == covers(sorted@.subrange(0, i + 1), p) by {
                lemma_covers_push(before, iv, p);
                lemma_covers_push(sorted@.subrange(0, i as int), iv, p);
            }
            assert forall|a: int, b: int| 0 <= a < b < merged@.len() implies #[trigger] merged@[a].end.lt(
                #[trigger] merged@[b].start) by {
                assert(merged@[a] == before[a]);
                if b < n {
                    assert(merged@[b] == before[b]);
                } else {
                    assert(before[n - 1].end.lt(iv.start));
                    if a < n - 1 {
                        assert(before[a].end.lt(before[n - 1].start));
                    }
                }
            }
        }
        i = i + 1;
    }
    assert(sorted@.subrange(0, sorted@.len() as int) == sorted@);
    merged
}

/// `ticks` holds `lo`, the multiples of `step` strictly between `lo` and `hi`,
/// and `hi`, in strictly increasing order.
pub open spec fn is_tick_list(ticks: Seq<i64>, lo: int, hi: int, step: int) -> bool {
    &&& ticks.len() >= 2
    &&& ticks[0] == lo
    &&& ticks[ticks.len() - 1] == hi
    &&& forall|i: int, j: int| 0 <= i < j < ticks.len() ==> #[trigger] ticks[i] < #[trigger] ticks[j]
    &&& forall|i: int| 0 < i < ticks.len() - 1 ==> (#[trigger] ticks[i] as int) % step == 0
    &&& forall|x: int| lo < x < hi && x % step == 0 ==> #[trigger] ticks.contains(x as i64)
}

proof fn lemma_no_multiple_between(a: int, x: int, n: int)
    requires
        n > 0,
        a % n == 0,
        a < x < a + n,
    ensures
        x % n != 0,
{
    lemma_fundamental_div_mod(a, n);
    lemma_fundamental_div_mod(x, n);
    let qa = a / n;
    let qx = x / n;
    if x % n == 0 {
        assert(qa < qx) by (nonlinear_arith)
            requires
                a == n * qa,
                x == n * qx,
                a < x,
                n > 0,
        ;
        assert(false) by (nonlinear_arith)
            requires
                a == n * qa,
                x == n * qx,
                x < a + n,
                qa < qx,
                n > 0,
        ;
    }
}

/// The ticks of the segment `[lo, hi]` for the step `step`: the multiples of
/// `step` inside it, with both boundaries always present.
fn boundary_anchored_ticks(lo: i64, hi: i64, step: u128) -> (r: Vec<i64>)
    requires
        lo < hi,
        1 <= step <= 200_000_000_000_000_000_000,
    ensures
        is_tick_list(r@, lo as int, hi as int, step as int),
{
    let n = step as i128;
    let rem = (lo as i128).checked_rem_euclid(n).unwrap();
    let ghost ni: int = step as int;
    let ghost loi: int = lo as int;
    proof {
        lemma_fundamental_div_mod(loi, ni);
        let q = loi / ni;
        assert(loi - rem == ni * q);
        vstd::arithmetic::div_mod::lemma_mod_multiples_basic(q, ni);
        assert(q * ni == ni * q) by (nonlinear_arith);
        assert((loi - rem) % ni == 0);
    }
    // the first multiple of `step` above `lo`
    let mut t: i128 = lo as i128 - rem + n;
    let mut ticks: Vec<i64> = Vec::new();
    ticks.push(lo);
    proof {
        assert(t as int == ni + (loi - rem));
        lemma_mod_add_multiples_vanish(loi - rem, ni);
        assert forall|x: int| lo < x < t && x % ni == 0 implies #[trigger] ticks@.contains(x as i64) by {
            lemma_no_multiple_between(loi - rem, x, ni);
        }
    }
    while t < hi as i128
        invariant
            lo < hi,
            n == step,
            ni == step as int,
            loi == lo as int,
            1 <= step <= 200_000_000_000_000_000_000,
            lo < t <= hi + step,
            (t as int) % ni == 0,
            ticks@.len() >= 1,
            ticks@[0] == lo,
            ticks@[ticks@.len() - 1] < t,
            ticks@[ticks@.len() - 1] < hi,
            forall|i: int, j: int| 0 <= i < j < ticks@.len() ==> #[trigger] ticks@[i] < #[trigger] ticks@[j],
            forall|i: int| 0 < i < ticks@.len() ==> (#[trigger] ticks@[i] as int) % ni == 0,
            forall|x: int| lo < x < t && x % ni == 0 ==> #[trigger] ticks@.contains(x as i64),
        decreases (hi as int) + (step as int) - (t as int),
    {
        let ghost before = ticks@;
        ticks.push(t as i64);
        proof {
            lemma_mod_add_multiples_vanish(t as int, ni);
            assert forall|x: int| lo < x < t + ni && x % ni == 0 implies #[trigger] ticks@.contains(x as i64) by {
                if x < t {
                    assert(before.contains(x as i64));
                    let w = choose|w: int| 0 <= w < before.len() && before[w] == x as i64;
                    assert(ticks@[w] == x as i64);
                } else if x == t {
                    assert(ticks@[ticks@.len() - 1] == x as i64);
                } else {
                    lemma_no_multiple_between(t as int, x, ni);
                }
            }
        }
        t = t + n;
    }
    let ghost before = ticks@;
    ticks.push(hi);
    proof {
        assert forall|i: int| 0 <= i < before.len() implies #[trigger] ticks@[i] == before[i] by {}
        assert forall|i: int, j: int| 0 <= i < j < ticks@.len() implies #[trigger] ticks@[i] < #[trigger] ticks@[j] by {
            if j == before.len() {
                assert(before[i] <= before[before.len() - 1]);
            } else {
                assert(before[i] < before[j]);
            }
        }
        assert forall|x: int| lo < x < hi && x % ni == 0 implies #[trigger] ticks@.contains(x as i64) by {
            assert(before.contains(x as i64));
            let w = choose|w: int| 0 <= w < before.len() && before[w] == x as i64;
            assert(ticks@[w] == x as i64);
        }
    }
    ticks
}

/// A segment that gets ticks: both bounds finite and `start < end`.
pub open spec fn is_tickable(seg: Interval) -> bool {
    match (seg.start, seg.end) {
        (Coord::Finite(lo), Coord::Finite(hi)) => lo < hi,
        _ => false,
    }
}

pub open spec fn lo_of(seg: Interval) -> int {
    match seg.start {
        Coord::Finite(lo) => lo as int,
        _ => 0,
    }
}

pub open spec fn hi_of(seg: Interval) -> int {
    match seg.end {
        Coord::Finite(hi) => hi as int,
        _ => 0,
    }
}

/// The step that divides a segment into `max(span / hint, 1)` equal parts,
/// `span / max(span / hint, 1)`, which is `min(span, hint)`. A hint of zero
/// counts as the smallest positive hint.
pub open spec fn raw_step(seg: Interval, hint: int) -> int {
    let span = hi_of(seg) - lo_of(seg);
    let h = if hint < 1 { 1 } else { hint };
    if span < h { span } else { h }
}

/// The largest raw step over the tickable segments, or 0 if there is none.
pub open spec fn max_raw_step(segs: Seq<Interval>, hint: int) -> int
    decreases segs.len(),
{
    if segs.len() == 0 {
        0
    } else {
        let rest = max_raw_step(segs.drop_last(), hint);
        let last = segs.last();
        if is_tickable(last) && raw_step(last, hint) > rest {
            raw_step(last, hint)
        } else {
            rest
        }
    }
}

proof fn lemma_max_raw_step_bounds(segs: Seq<Interval>, hint: int)
    ensures
        0 <= max_raw_step(segs, hint) <= u64::MAX,
        hint >= 1 ==> max_raw_step(segs, hint) <= hint,
        forall|i: int| 0 <= i < segs.len() && is_tickable(#[trigger] segs[i]) ==> max_raw_step(segs, hint) >= 1,
    decreases segs.len(),
{
    if segs.len() > 0 {
        lemma_max_raw_step_bounds(segs.drop_last(), hint);
        assert forall|i: int| 0 <= i < segs.len() && is_tickable(#[trigger] segs[i]) implies max_raw_step(segs, hint) >= 1 by {
            if i < segs.len() - 1 {
                assert(segs.drop_last()[i] == segs[i]);
            }
        }
    }
}

/// `min(hi - lo, max(hint, 1))` for a tickable segment.
fn raw_step_of(lo: i64, hi: i64, hint: u64) -> (r: u64)
    requires
        lo < hi,
    ensures
        r == raw_step(Interval { start: Coord::Finite(lo), end: Coord::Finite(hi) }, hint as int),
        r >= 1,
{
    let span = (hi as i128 - lo as i128) as u64;
    let h = if hint < 1 { 1 } else { hint };
    if span < h { span } else { h }
}

/// Ticks of a tickable segment for a given nice step, as a list.
fn ticks_of_segment(seg: &Interval, step: u128) -> (r: Vec<i64>)
    requires
        1 <= step <= 200_000_000_000_000_000_000,
    ensures
        is_tickable(*seg) ==> is_tick_list(r@, lo_of(*seg), hi_of(*seg), step as int),
        !is_tickable(*seg) ==> r@.len() == 0,
{
    match (seg.start, seg.end) {
        (Coord::Finite(lo), Coord::Finite(hi)) => {
            if lo < hi {
                boundary_anchored_ticks(lo, hi, step)
            } else {
                Vec::new()
            }
        },
        _ => Vec::new(),
    }
}

/// Declarative layout for a segmented axis:
/// - `segments` are the visible data ranges, in order.
/// - `gap_px` is the visual gap (in screen pixels) drawn between them.
///
/// Ticks use one shared nice step for all segments, so that segments of very
/// different widths get the same tick density.
#[derive(Clone, Debug)]
pub struct SegmentedAxis {
    pub segments: Vec<Interval>,
    pub gap_px: u32,
}

impl SegmentedAxis {
    pub open spec fn wf(&self) -> bool {
        is_canonical(self.segments@)
    }

    /// Create and sanitize (drop empties, sort, merge overlapping or touching
    /// segments).
    pub fn new(segments: Vec<Interval>, gap_px: u32) -> (r: Self)
        requires
            forall|i: int| 0 <= i < segments@.len() ==> (#[trigger] segments@[i]).wf(),
        ensures
            r.wf(),
            r.gap_px == gap_px,
            forall|i: int| 0 <= i < r.segments@.len() - 1 ==> (#[trigger] r.segments@[i]).end.le(r.segments@[i + 1].start),
            forall|p: int| covers(r.segments@, p) == covers_nonempty(segments@, p),
    {
        let merged = sanitize(segments);
        proof {
            assert forall|i: int| 0 <= i < merged@.len() - 1 implies (#[trigger] merged@[i]).end.le(merged@[i + 1].start) by {
                assert(merged@[i].end.lt(merged@[i + 1].start));
            }
        }
        SegmentedAxis { segments: merged, gap_px }
    }

    /// Return true if we effectively have a segmented axis (2+ segments).
    pub fn is_multi_segment(&self) -> (r: bool)
        ensures
            r == (self.segments@.len() > 1),
    {
        self.segments.len() > 1
    }

    /// The ticks of each segment, in the order of the segments.
    ///
    /// One nice step serves all segments: the nice step of the largest raw
    /// step over the tickable segments. Every tickable segment gets its
    /// boundaries and the multiples of that step between them; the other
    /// segments get none, and so do all when no segment is tickable.
    pub fn segment_ticks(&self, step_hint: u64) -> (r: Vec<Vec<i64>>)
        ensures
            r@.len() == self.segments@.len(),
            forall|i: int| 0 <= i < r@.len() && is_tickable(#[trigger] self.segments@[i]) ==>
                r@[i]@.contains(lo_of(self.segments@[i]) as i64) && r@[i]@.contains(hi_of(self.segments@[i]) as i64),
            forall|i: int| 0 <= i < r@.len() && is_tickable(#[trigger] self.segments@[i]) ==>
                is_tick_list(r@[i]@, lo_of(self.segments@[i]), hi_of(self.segments@[i]),
                    nice_step_spec(max_raw_step(self.segments@, step_hint as int) as nat) as int),
            forall|i: int| 0 <= i < r@.len() && !is_tickable(#[trigger] self.segments@[i]) ==> r@[i]@.len() == 0,
    {
        let segs = &self.segments;
        let mut max_raw: u64 = 0;
        let mut i: usize = 0;
        while i < segs.len()
            invariant
                i <= segs@.len(),
                max_raw == max_raw_step(segs@.subrange(0, i as int), step_hint as int),
            decreases segs.len() - i,
        {
            let seg = &segs[i];
            assert(segs@.subrange(0, i + 1).drop_last() == segs@.subrange(0, i as int));
            match (seg.start, seg.end) {
                (Coord::Finite(lo), Coord::Finite(hi)) => {
                    if lo < hi {
                        let raw = raw_step_of(lo, hi, step_hint);
                        if raw > max_raw {
                            max_raw = raw;
                        }
                    }
                },
                _ => {},
            }
            i = i + 1;
        }
        assert(segs@.subrange(0, segs@.len() as int) == segs@);
        proof {
            lemma_max_raw_step_bounds(segs@, step_hint as int);
        }

        let mut out: Vec<Vec<i64>> = Vec::new();
        if max_raw == 0 {
            let mut k: usize = 0;
            while k < segs.len()
                invariant
                    k <= segs@.len(),
                    out@.len() == k,
                    forall|j: int| 0 <= j < k ==> (#[trigger] out@[j])@.len() == 0,
                decreases segs.len() - k,
            {
                out.push(Vec::new());
                k = k + 1;
            }
            return out;
        }
        let nice = nice_step(max_raw);
        let mut k: usize = 0;
        while k < segs.len()
            invariant
                k <= segs@.len(),
                out@.len() == k,
                1 <= nice <= 200_000_000_000_000_000_000,
                nice == nice_step_spec(max_raw_step(segs@, step_hint as int) as nat),
                forall|j: int| 0 <= j < k && is_tickable(#[trigger] segs@[j]) ==>
                    is_tick_list(out@[j]@, lo_of(segs@[j]), hi_of(segs@[j]), nice as int),
                forall|j: int| 0 <= j < k && !is_tickable(#[trigger] segs@[j]) ==> out@[j]@.len() == 0,
            decreases segs.len() - k,
        {
            let ticks = ticks_of_segment(&segs[k], nice);
            out.push(ticks);
            k = k + 1;
        }
        proof {
            assert forall|j: int| 0 <= j < out@.len() && is_tickable(#[trigger] segs@[j]) implies
                out@[j]@.contains(lo_of(segs@[j]) as i64) && out@[j]@.contains(hi_of(segs@[j]) as i64) by {
                let s = out@[j]@;
                assert(s[0] == lo_of(segs@[j]) as i64);
                assert(s[s.len() - 1] == hi_of(segs@[j]) as i64);
            }
        }
        out
    }
}

/// Declarative layout for a "broken" X axis:
/// - `segments` are the visible data ranges, in order.
/// - `gap_px` is the visual gap (in screen pixels) drawn between them.
///
/// Ticks use a nice step of each segment's own, so that short segments get
/// denser ticks.
#[derive(Clone, Debug)]
pub struct BrokenXAxis {
    pub segments: Vec<Interval>,
    pub gap_px: u32,
}

impl BrokenXAxis {
    pub open spec fn wf(&self) -> bool {
        is_canonical(self.segments@)
    }

    /// Create and sanitize (drop empties, sort, merge overlapping or touching
    /// segments).
    pub fn new(segments: Vec<Interval>, gap_px: u32) -> (r: Self)
        requires
            forall|i: int| 0 <= i < segments@.len() ==> (#[trigger] segments@[i]).wf(),
        ensures
            r.wf(),
            r.gap_px == gap_px,
            forall|i: int| 0 <= i < r.segments@.len() - 1 ==> (#[trigger] r.segments@[i]).end.le(r.segments@[i + 1].start),
            forall|p: int| covers(r.segments@, p) == covers_nonempty(segments@, p),
    {
        let merged = sanitize(segments);
        proof {
            assert forall|i: int| 0 <= i < merged@.len() - 1 implies (#[trigger] merged@[i]).end.le(merged@[i + 1].start) by {
                assert(merged@[i].end.lt(merged@[i + 1].start));
            }
        }
        BrokenXAxis { segments: merged, gap_px }
    }

    /// Return true if we effectively have a broken axis (2+ segments).
    pub fn is_multi_segment(&self) -> (r: bool)
        ensures
            r == (self.segments@.len() > 1),
    {
        self.segments.len() > 1
    }

    /// The ticks of each segment, in the order of the segments.
    ///
    /// Each tickable segment gets its boundaries and the multiples between
    /// them of the nice step of its own raw step; the other segments get none.
    pub fn segment_ticks(&self, step_hint: u64) -> (r: Vec<Vec<i64>>)
        ensures
            r@.len() == self.segments@.len(),
            forall|i: int| 0 <= i < r@.len() && is_tickable(#[trigger] self.segments@[i]) ==>
                r@[i]@.contains(lo_of(self.segments@[i]) as i64) && r@[i]@.contains(hi_of(self.segments@[i]) as i64),
            forall|i: int| 0 <= i < r@.len() && is_tickable(#[trigger] self.segments@[i]) ==>
                is_tick_list(r@[i]@, lo_of(self.segments@[i]), hi_of(self.segments@[i]),
                    nice_step_spec(raw_step(self.segments@[i], step_hint as int) as nat) as int),
            forall|i: int| 0 <= i < r@.len() && !is_tickable(#[trigger] self.segments@[i]) ==> r@[i]@.len() == 0,
    {
        let segs = &self.segments;
        let mut out: Vec<Vec<i64>> = Vec::new();
        let mut k: usize = 0;
        while k < segs.len()
            invariant
                k <= segs@.len(),
                out@.len() == k,
                forall|j: int| 0 <= j < k && is_tickable(#[trigger] segs@[j]) ==>
                    is_tick_list(out@[j]@, lo_of(segs@[j]), hi_of(segs@[j]),
                        nice_step_spec(raw_step(segs@[j], step_hint as int) as nat) as int),
                forall|j: int| 0 <= j < k && !is_tickable(#[trigger] segs@[j]) ==> out@[j]@.len() == 0,
            decreases segs.len() - k,
        {
            let seg = &segs[k];
            let ticks = match (seg.start, seg.end) {
                (Coord::Finite(lo), Coord::Finite(hi)) => {
                    if lo < hi {
                        let nice = nice_step(raw_step_of(lo, hi, step_hint));
                        boundary_anchored_ticks(lo, hi, nice)
                    } else {
                        Vec::new()
                    }
                },
                _ => Vec::new(),
            };
            out.push(ticks);
            k = k + 1;
        }
        proof {
            assert forall|j: int| 0 <= j < out@.len() && is_tickable(#[trigger] segs@[j]) implies
                out@[j]@.contains(lo_of(segs@[j]) as i64) && out@[j]@.contains(hi_of(segs@[j]) as i64) by {
                let s = out@[j]@;
                assert(s[0] == lo_of(segs@[j]) as i64);
                assert(s[s.len() - 1] == hi_of(segs@[j]) as i64);
            }
        }
        out
    }
}

} // verus!
