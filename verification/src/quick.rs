//! What quick sort does, as a function on runs, and why it sorts.
use crate::run::{
    extends, lemma_compare, lemma_extends_chain, lemma_extends_self, lemma_swap, Run,
};
use crate::trace::{same_outside, sorted_range, within};
use vstd::prelude::*;

verus! {

/// Lomuto partition around the pivot `arr[end]`, standing at `j` with the
/// boundary at `i`: each of `j`, ..., `end - 1` is compared with the
/// pivot and, if smaller, swapped to the boundary, which then moves up.
/// At the end the pivot is swapped to the boundary; the result is the run
/// and the pivot's index.
pub open spec fn partition_walk(r: Run, i: int, j: int, end: int) -> (Run, int)
    decreases end - j,
{
    if j >= end {
        (r.swap(i, end), i)
    } else if r.arr[j] < r.arr[end] {
        partition_walk(r.compare(j, end).swap(i, j), i + 1, j + 1, end)
    } else {
        partition_walk(r.compare(j, end), i, j + 1, end)
    }
}

/// The partition of `[start, end]`.
pub open spec fn partition_run(r: Run, start: int, end: int) -> (Run, int) {
    partition_walk(r, start, start, end)
}

/// Quick sort on `[start, end]`: partition, then the part below the pivot,
/// then the part above it. The pivot always lies in the range; the test
/// on it is there to show that the definition ends.
pub open spec fn quick_range_run(r: Run, start: int, end: int) -> Run
    decreases end - start + 1,
{
    if start < end {
        let part = partition_run(r, start, end);
        if start <= part.1 <= end {
            quick_range_run(quick_range_run(part.0, start, part.1 - 1), part.1 + 1, end)
        } else {
            part.0
        }
    } else {
        r
    }
}

/// The run after the ranges on `stack` were sorted, the topmost first.
pub open spec fn quick_pending_run(r: Run, stack: Seq<(usize, usize)>) -> Run
    decreases stack.len(),
{
    if stack.len() == 0 {
        r
    } else {
        quick_pending_run(
            quick_range_run(r, stack.last().0 as int, stack.last().1 as int),
            stack.drop_last(),
        )
    }
}

/// The run that quick sort leaves when it starts from `r`.
pub open spec fn quick_run(r: Run) -> Run {
    quick_range_run(r, 0, r.arr.len() - 1)
}

/// The work that a range on the stack stands for.
pub open spec fn range_weight(range: (usize, usize)) -> nat {
    if range.0 <= range.1 {
        (2 * (range.1 - range.0 + 1) + 1) as nat
    } else {
        1
    }
}

/// The work that the ranges on `stack` stand for.
pub open spec fn stack_weight(stack: Seq<(usize, usize)>) -> nat
    decreases stack.len(),
{
    if stack.len() == 0 {
        0
    } else {
        stack_weight(stack.drop_last()) + range_weight(stack.last())
    }
}

/// A partition leaves the pivot between the smaller elements and the
/// rest, touches nothing outside the range, and keeps the elements of the
/// range within the bounds they had.
pub proof fn lemma_partition_walk(r: Run, start: int, i: int, j: int, end: int, lo: int, hi: int)
    requires
        0 <= start <= i <= j <= end < r.arr.len() <= usize::MAX,
        forall|k: int| start <= k < i ==> r.arr[k] < r.arr[end],
        forall|k: int| i <= k < j ==> r.arr[k] >= r.arr[end],
        within(r.arr, start, end, lo, hi),
    ensures
        i <= partition_walk(r, i, j, end).1 <= end,
        extends(r, partition_walk(r, i, j, end).0),
        same_outside(r.arr, partition_walk(r, i, j, end).0.arr, start, end),
        within(partition_walk(r, i, j, end).0.arr, start, end, lo, hi),
        partition_walk(r, i, j, end).0.arr[partition_walk(r, i, j, end).1] == r.arr[end],
        forall|k: int|
            start <= k < partition_walk(r, i, j, end).1 ==> partition_walk(r, i, j, end).0.arr[k]
                < r.arr[end],
        forall|k: int|
            partition_walk(r, i, j, end).1 < k <= end ==> partition_walk(r, i, j, end).0.arr[k]
                >= r.arr[end],
    decreases end - j,
{
    if j >= end {
        lemma_swap(r, i, end);
    } else {
        let looked = r.compare(j, end);
        lemma_compare(r, j, end);
        if r.arr[j] < r.arr[end] {
            let moved = looked.swap(i, j);
            lemma_swap(looked, i, j);
            lemma_extends_chain(r, looked, moved);
            lemma_partition_walk(moved, start, i + 1, j + 1, end, lo, hi);
            lemma_extends_chain(r, moved, partition_walk(moved, i + 1, j + 1, end).0);
        } else {
            lemma_partition_walk(looked, start, i, j + 1, end, lo, hi);
            lemma_extends_chain(r, looked, partition_walk(looked, i, j + 1, end).0);
        }
    }
}

/// Quick sort on a range sorts it, touches nothing outside it, keeps its
/// elements within the bounds they had, and its steps replay to its
/// result.
pub proof fn lemma_quick_range(r: Run, start: int, end: int, lo: int, hi: int)
    requires
        0 <= start,
        start <= end + 1,
        end < r.arr.len() <= usize::MAX,
        within(r.arr, start, end, lo, hi),
    ensures
        extends(r, quick_range_run(r, start, end)),
        same_outside(r.arr, quick_range_run(r, start, end).arr, start, end),
        within(quick_range_run(r, start, end).arr, start, end, lo, hi),
        sorted_range(quick_range_run(r, start, end).arr, start, end),
    decreases end - start + 1,
{
    if start < end {
        let part = partition_run(r, start, end);
        let p = part.1;
        let v = r.arr[end] as int;
        lemma_partition_walk(r, start, start, start, end, lo, hi);
        assert(within(part.0.arr, start, p - 1, lo, v - 1));
        lemma_quick_range(part.0, start, p - 1, lo, v - 1);
        let low = quick_range_run(part.0, start, p - 1);
        assert(within(low.arr, p + 1, end, v, hi));
        lemma_quick_range(low, p + 1, end, v, hi);
        let out = quick_range_run(low, p + 1, end);
        lemma_extends_chain(r, part.0, low);
        lemma_extends_chain(r, low, out);
        assert(out.arr[p] == v);
        assert forall|a: int, b: int| start <= a <= b <= end implies out.arr[a] <= out.arr[b] by {
            if a < p {
                assert(out.arr[a] == low.arr[a]);
                assert(lo <= low.arr[a] <= v - 1);
            }
            if b > p {
                assert(v <= out.arr[b] <= hi);
            }
        }
        assert forall|k: int| start <= k <= end implies lo <= #[trigger] out.arr[k] <= hi by {
            if k < p {
                assert(out.arr[k] == low.arr[k]);
                assert(lo <= low.arr[k] <= v - 1);
            } else if k > p {
                assert(v <= out.arr[k] <= hi);
            } else {
                assert(lo <= r.arr[end] <= hi);
            }
        }
    } else {
        lemma_extends_self(r);
    }
}

/// A range pushed on the stack is the next to be sorted, and adds its
/// weight to the stack's.
pub proof fn lemma_pushed(r: Run, stack: Seq<(usize, usize)>, range: (usize, usize))
    ensures
        quick_pending_run(r, stack.push(range)) == quick_pending_run(
            quick_range_run(r, range.0 as int, range.1 as int),
            stack,
        ),
        stack_weight(stack.push(range)) == stack_weight(stack) + range_weight(range),
{
    assert(stack.push(range).drop_last() =~= stack);
}

} // verus!
