//! Index logic of columnar series: slicing and runs of usable samples.
use vstd::prelude::*;

verus! {

/// Offsets at which a columnar series breaks into separate runs.
#[derive(Clone, Copy, Debug)]
pub struct Segments<'a> {
    pub offsets: &'a [u32],
}

/// One end of an index range.
#[derive(Clone, Copy, Debug, PartialEq, Eq, Structural)]
pub enum RangeBound {
    Unbounded,
    Included(usize),
    Excluded(usize),
}

pub open spec fn sat_succ(i: usize) -> int {
    if i == usize::MAX { i as int } else { i + 1 }
}

pub open spec fn start_index(b: RangeBound) -> int {
    match b {
        RangeBound::Unbounded => 0,
        RangeBound::Included(i) => i as int,
        RangeBound::Excluded(i) => sat_succ(i),
    }
}

pub open spec fn end_index(b: RangeBound, len: int) -> int {
    match b {
        RangeBound::Unbounded => len,
        RangeBound::Included(i) => sat_succ(i),
        RangeBound::Excluded(i) => i as int,
    }
}

pub open spec fn min_int(a: int, b: int) -> int {
    if a <= b { a } else { b }
}

/// The index range `start..end` of a slice of a series of `len` samples,
/// clamped to `0..len`; `None` when it is empty.
pub fn clamp_slice_range(len: usize, start: RangeBound, end: RangeBound) -> (r: Option<(usize, usize)>)
    ensures
        ({
            let s = min_int(start_index(start), len as int);
            let e = min_int(end_index(end, len as int), len as int);
            r == if e <= s { None } else { Some((s as usize, e as usize)) }
        }),
{
    let s = match start {
        RangeBound::Unbounded => 0,
        RangeBound::Included(i) => i,
        RangeBound::Excluded(i) => i.saturating_add(1),
    };
    let s = if s < len { s } else { len };
    let e = match end {
        RangeBound::Unbounded => len,
        RangeBound::Included(i) => i.saturating_add(1),
        RangeBound::Excluded(i) => i,
    };
    let e = if e < len { e } else { len };
    if e <= s {
        None
    } else {
        Some((s, e))
    }
}

/// Whether index `i` lies in one of the runs.
pub open spec fn in_some_run(runs: Seq<(usize, usize)>, i: int) -> bool {
    exists|k: int| 0 <= k < runs.len() && (#[trigger] runs[k]).0 <= i < runs[k].1
}

/// `runs` are the maximal runs of `true` in `ok`, left to right, each as a
/// half-open index range.
pub open spec fn is_maximal_runs(ok: Seq<bool>, runs: Seq<(usize, usize)>) -> bool {
    &&& forall|k: int| 0 <= k < runs.len() ==> (#[trigger] runs[k]).0 < runs[k].1 <= ok.len()
    &&& forall|k: int, i: int| 0 <= k < runs.len() && (#[trigger] runs[k]).0 <= i < runs[k].1 ==> #[trigger] ok[i]
    &&& forall|k: int| 0 <= k < runs.len() ==> (#[trigger] runs[k]).0 == 0 || !ok[runs[k].0 - 1]
    &&& forall|k: int| 0 <= k < runs.len() ==> (#[trigger] runs[k]).1 == ok.len() || !ok[runs[k].1 as int]
    &&& forall|k: int, q: int| 0 <= k < q < runs.len() ==> (#[trigger] runs[k]).1 < (#[trigger] runs[q]).0
    &&& forall|i: int| 0 <= i < ok.len() && #[trigger] ok[i] ==> in_some_run(runs, i)
}

/// The maximal runs of usable samples, given for each sample whether it is
/// usable (both coordinates finite).
pub fn usable_runs(ok: &Vec<bool>) -> (r: Vec<(usize, usize)>)
    ensures
        is_maximal_runs(ok@, r@),
{
    let len = ok.len();
    let mut runs: Vec<(usize, usize)> = Vec::new();
    let mut i: usize = 0;
    while i < len
        invariant
            len == ok@.len(),
            i <= len,
            i < len ==> i == 0 || !ok@[i as int],
            forall|k: int| 0 <= k < runs@.len() ==> (#[trigger] runs@[k]).0 < runs@[k].1 <= i,
            forall|k: int, j: int| 0 <= k < runs@.len() && (#[trigger] runs@[k]).0 <= j < runs@[k].1 ==> #[trigger] ok@[j],
            forall|k: int| 0 <= k < runs@.len() ==> (#[trigger] runs@[k]).0 == 0 || !ok@[runs@[k].0 - 1],
            forall|k: int| 0 <= k < runs@.len() ==> (#[trigger] runs@[k]).1 == len || !ok@[runs@[k].1 as int],
            forall|k: int, q: int| 0 <= k < q < runs@.len() ==> (#[trigger] runs@[k]).1 < (#[trigger] runs@[q]).0,
            forall|j: int| 0 <= j < i && #[trigger] ok@[j] ==> in_some_run(runs@, j),
        decreases len - i,
    {
        let i0 = i;
        while i < len && !ok[i]
            invariant
                len == ok@.len(),
                i0 <= i <= len,
                forall|j: int| i0 <= j < i ==> !#[trigger] ok@[j],
            decreases len - i,
        {
            i = i + 1;
        }
        let start = i;
        while i < len && ok[i]
            invariant
                len == ok@.len(),
                start <= i <= len,
                forall|j: int| start <= j < i ==> #[trigger] ok@[j],
            decreases len - i,
        {
            i = i + 1;
        }
        if start < i {
            let ghost before = runs@;
            runs.push((start, i));
            proof {
                let n = before.len() as int;
                assert(runs@[n] == (start, i));
                assert forall|k: int| 0 <= k < n implies #[trigger] runs@[k] == before[k] by {}
                if start > i0 {
                    assert(!ok@[start - 1]);
                } else {
                    assert(ok@[start as int]);
                }
                assert forall|k: int, q: int| 0 <= k < q < runs@.len() implies (#[trigger] runs@[k]).1 < (#[trigger] runs@[q]).0 by {
                    if q == n {
                        assert(runs@[k] == before[k]);
                        assert(before[k].1 <= i0);
                        if before[k].1 == start {
                            assert(ok@[start as int]);
                        }
                    }
                }
                assert forall|j: int| 0 <= j < i && #[trigger] ok@[j] implies in_some_run(runs@, j) by {
                    if j >= start {
                        assert(runs@[n].0 <= j < runs@[n].1);
                    } else if j < i0 {
                        let k = choose|k: int| 0 <= k < before.len() && (#[trigger] before[k]).0 <= j < before[k].1;
                        assert(runs@[k] == before[k]);
                    }
                }
            }
        } else {
            proof {
                assert forall|j: int| 0 <= j < i && #[trigger] ok@[j] implies in_some_run(runs@, j) by {
                    if j >= i0 {
                        assert(!ok@[j]);
                    }
                }
            }
        }
    }
    runs
}

} // verus!
