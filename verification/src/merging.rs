//! What merge sort does, as a function on runs, and why it sorts.
use crate::run::{extends, lemma_extends_chain, lemma_extends_self, lemma_extends_step, run, Run};
use crate::trace::{
    lemma_merge_cursor, lemma_merge_range, lemma_merged_sorted, merge_cursor, merge_range, merged,
    same_outside, sorted, sorted_range, Step,
};
use vstd::prelude::*;

verus! {

/// The comparisons that a merge of the runs `l` and `r` records, where `l`
/// starts at index `start` and ends at `mid`: one for each element it
/// puts out, between `start` plus what it has taken from `l` and `mid`
/// plus what it has taken from `r`.
pub open spec fn merge_looks(l: Seq<isize>, r: Seq<isize>, start: int, mid: int) -> Seq<Step> {
    Seq::new(
        l.len() + r.len(),
        |k: int|
            Step::Compare(
                (start + merge_cursor(l, r, k as nat).0) as usize,
                (mid + merge_cursor(l, r, k as nat).1) as usize,
            ),
    )
}

/// The run after `[start, mid]` and `[mid + 1, end]` were merged: the
/// comparisons of the merge, then the one step that stands for it.
pub open spec fn merge_run(r: Run, start: int, mid: int, end: int) -> Run {
    Run {
        arr: merge_range(r.arr, start, mid, end),
        trace: (r.trace + merge_looks(
            r.arr.subrange(start, mid + 1),
            r.arr.subrange(mid + 1, end + 1),
            start,
            mid,
        )).push(Step::Merge(start as usize, mid as usize, end as usize)),
    }
}

/// The run after merge sort has sorted `[start, end]`: the left half, the
/// right half, then their merge.
pub open spec fn merge_sort_run(r: Run, start: int, end: int) -> Run
    decreases end - start,
{
    if start < end {
        let mid = start + (end - start) / 2;
        merge_run(merge_sort_run(merge_sort_run(r, start, mid), mid + 1, end), start, mid, end)
    } else {
        r
    }
}

/// The first `k` comparisons of a merge continue the run and leave the
/// array as it is: both indices of each lie within `[start, end]`.
pub proof fn lemma_merge_looks(r: Run, start: int, mid: int, end: int, k: nat)
    requires
        0 <= start <= mid <= end < r.arr.len() <= usize::MAX,
        k <= end - start + 1,
    ensures
        extends(
            r,
            run(
                r.arr,
                r.trace + merge_looks(
                    r.arr.subrange(start, mid + 1),
                    r.arr.subrange(mid + 1, end + 1),
                    start,
                    mid,
                ).take(k as int),
            ),
        ),
    decreases k,
{
    let left = r.arr.subrange(start, mid + 1);
    let right = r.arr.subrange(mid + 1, end + 1);
    let looks = merge_looks(left, right, start, mid);
    if k == 0 {
        lemma_extends_self(r);
        assert(r.trace + looks.take(0) =~= r.trace);
    } else {
        let p = (k - 1) as nat;
        lemma_merge_looks(r, start, mid, end, p);
        lemma_merge_cursor(left, right, p);
        let seen = run(r.arr, r.trace + looks.take(p as int));
        lemma_extends_step(r, seen, looks[p as int]);
        assert(seen.trace.push(looks[p as int]) =~= r.trace + looks.take(k as int));
    }
}

/// A merge continues the run, touches nothing outside its range, and
/// leaves the range sorted if its two halves were.
pub proof fn lemma_merge_run(r: Run, start: int, mid: int, end: int)
    requires
        0 <= start <= mid <= end < r.arr.len() <= usize::MAX,
    ensures
        extends(r, merge_run(r, start, mid, end)),
        same_outside(r.arr, merge_run(r, start, mid, end).arr, start, end),
        sorted_range(r.arr, start, mid) && sorted_range(r.arr, mid + 1, end) ==> sorted_range(
            merge_run(r, start, mid, end).arr,
            start,
            end,
        ),
{
    let left = r.arr.subrange(start, mid + 1);
    let right = r.arr.subrange(mid + 1, end + 1);
    let looks = merge_looks(left, right, start, mid);
    let total = (end - start + 1) as nat;
    lemma_merge_looks(r, start, mid, end, total);
    assert(looks.take(total as int) =~= looks);
    let seen = run(r.arr, r.trace + looks);
    lemma_extends_step(r, seen, Step::Merge(start as usize, mid as usize, end as usize));
    lemma_merge_range(r.arr, start, mid, end);
    if sorted_range(r.arr, start, mid) && sorted_range(r.arr, mid + 1, end) {
        assert(sorted(left));
        assert(sorted(right));
        lemma_merged_sorted(left, right);
        let out = merge_range(r.arr, start, mid, end);
        assert forall|p: int, q: int| start <= p <= q <= end implies out[p] <= out[q] by {
            assert(out[p] == merged(left, right)[p - start]);
            assert(out[q] == merged(left, right)[q - start]);
        }
    }
}

/// Merge sort on a range sorts it, touches nothing outside it, and its
/// steps replay to its result.
pub proof fn lemma_merge_sort_run(r: Run, start: int, end: int)
    requires
        0 <= start <= end < r.arr.len() <= usize::MAX,
    ensures
        extends(r, merge_sort_run(r, start, end)),
        same_outside(r.arr, merge_sort_run(r, start, end).arr, start, end),
        sorted_range(merge_sort_run(r, start, end).arr, start, end),
    decreases end - start,
{
    if start < end {
        let mid = start + (end - start) / 2;
        lemma_merge_sort_run(r, start, mid);
        let first = merge_sort_run(r, start, mid);
        lemma_merge_sort_run(first, mid + 1, end);
        let second = merge_sort_run(first, mid + 1, end);
        assert forall|p: int, q: int| start <= p <= q <= mid implies second.arr[p]
            <= second.arr[q] by {
            assert(first.arr[p] <= first.arr[q]);
        }
        lemma_merge_run(second, start, mid, end);
        lemma_extends_chain(r, first, second);
        lemma_extends_chain(r, second, merge_run(second, start, mid, end));
    } else {
        lemma_extends_self(r);
    }
}

} // verus!
