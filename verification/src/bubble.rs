//! What bubble sort does, as a function on runs, and why it sorts.
use crate::run::{extends, lemma_compare_swap, lemma_extends_chain, lemma_extends_self, Run};
use crate::trace::{
    compare_count, same_outside, sorted, sorted_range, swap_count, triangle, within,
};
use vstd::prelude::*;

verus! {

/// One pass of bubble sort over the neighbours `(j, j + 1)`, ...,
/// `(limit - 1, limit)`.
pub open spec fn bubble_pass(r: Run, j: int, limit: int) -> Run
    decreases limit - j,
{
    if j >= limit {
        r
    } else {
        bubble_pass(r.compare_swap(j, j + 1), j + 1, limit)
    }
}

/// The passes `i`, `i + 1`, ..., `n - 2` of bubble sort on an array of
/// length `n`; pass `i` stops before the last `i` elements.
pub open spec fn bubble_passes(r: Run, i: int, n: int) -> Run
    decreases n - 1 - i,
{
    if i >= n - 1 {
        r
    } else {
        bubble_passes(bubble_pass(r, 0, n - 1 - i), i + 1, n)
    }
}

/// The run that bubble sort leaves when it starts from `r`.
pub open spec fn bubble_run(r: Run) -> Run {
    bubble_passes(r, 0, r.arr.len() as int)
}

/// A pass carries the greatest element of `[0, limit]` to `limit`: given
/// that the element at `j` is the greatest up to there, the pass from `j`
/// on leaves at `limit` an element that none before it exceeds. Nothing
/// after `limit` moves, and what stands up to `limit` stays below the
/// bound it had.
pub proof fn lemma_bubble_pass(r: Run, j: int, limit: int, hi: int)
    requires
        0 <= j <= limit < r.arr.len() <= usize::MAX,
        forall|p: int| 0 <= p <= j ==> r.arr[p] <= r.arr[j],
        within(r.arr, 0, limit, isize::MIN as int, hi),
    ensures
        extends(r, bubble_pass(r, j, limit)),
        same_outside(r.arr, bubble_pass(r, j, limit).arr, 0, limit),
        within(bubble_pass(r, j, limit).arr, 0, limit, isize::MIN as int, hi),
        forall|p: int|
            0 <= p <= limit ==> bubble_pass(r, j, limit).arr[p] <= bubble_pass(
                r,
                j,
                limit,
            ).arr[limit],
    decreases limit - j,
{
    if j >= limit {
        lemma_extends_self(r);
    } else {
        let next = r.compare_swap(j, j + 1);
        lemma_compare_swap(r, j, j + 1);
        assert(within(next.arr, 0, limit, isize::MIN as int, hi)) by {
            assert(r.arr[j] <= hi);
            assert(r.arr[j + 1] <= hi);
            assert forall|k: int| 0 <= k <= limit implies isize::MIN <= #[trigger] next.arr[k]
                <= hi by {
                if k != j && k != j + 1 {
                    assert(r.arr[k] <= hi);
                }
            }
        }
        lemma_bubble_pass(next, j + 1, limit, hi);
        lemma_extends_chain(r, next, bubble_pass(next, j + 1, limit));
    }
}

/// The passes from `i` on sort the array, given that its last `i`
/// elements are sorted and none before them exceeds any of them.
pub proof fn lemma_bubble_passes(r: Run, i: int, n: int)
    requires
        n == r.arr.len() <= usize::MAX,
        0 <= i <= n,
        sorted_range(r.arr, n - i, n - 1),
        forall|p: int, q: int| 0 <= p < n - i <= q < n ==> r.arr[p] <= r.arr[q],
    ensures
        extends(r, bubble_passes(r, i, n)),
        sorted_range(bubble_passes(r, i, n).arr, 0, n - 1),
    decreases n - 1 - i,
{
    if i >= n - 1 {
        lemma_extends_self(r);
    } else {
        let limit = n - 1 - i;
        let hi = if i == 0 {
            isize::MAX as int
        } else {
            r.arr[n - i] as int
        };
        assert(within(r.arr, 0, limit, isize::MIN as int, hi));
        lemma_bubble_pass(r, 0, limit, hi);
        let next = bubble_pass(r, 0, limit);
        assert forall|p: int, q: int| 0 <= p < limit <= q < n implies next.arr[p]
            <= next.arr[q] by {
            assert(next.arr[p] <= next.arr[limit] <= hi);
            if q > limit {
                assert(r.arr[n - i] <= r.arr[q]);
            }
        }
        assert forall|p: int, q: int| limit <= p <= q <= n - 1 implies next.arr[p]
            <= next.arr[q] by {
            if p == limit && q > limit {
                assert(next.arr[limit] <= hi);
                assert(r.arr[n - i] <= r.arr[q]);
            }
        }
        lemma_bubble_passes(next, i + 1, n);
        lemma_extends_chain(r, next, bubble_passes(next, i + 1, n));
    }
}

/// A pass from `j` on makes `limit - j` comparisons, whatever the array
/// holds. Where what it passes over is sorted, it swaps nothing.
pub proof fn lemma_bubble_pass_counts(r: Run, j: int, limit: int)
    requires
        0 <= j <= limit < r.arr.len() <= usize::MAX,
    ensures
        compare_count(bubble_pass(r, j, limit).trace) == compare_count(r.trace) + (limit - j),
        sorted_range(r.arr, j, limit) ==> bubble_pass(r, j, limit).arr == r.arr && swap_count(
            bubble_pass(r, j, limit).trace,
        ) == swap_count(r.trace),
    decreases limit - j,
{
    if j < limit {
        lemma_compare_swap(r, j, j + 1);
        lemma_bubble_pass_counts(r.compare_swap(j, j + 1), j + 1, limit);
    }
}

/// The passes from `i` on make `1 + 2 + ... + (n - 1 - i)` comparisons,
/// whatever the array holds. On a sorted array they swap nothing.
pub proof fn lemma_bubble_counts(r: Run, i: int, n: int)
    requires
        n == r.arr.len() <= usize::MAX,
        0 <= i < n,
    ensures
        compare_count(bubble_passes(r, i, n).trace) == compare_count(r.trace) + triangle(
            (n - 1 - i) as nat,
        ),
        sorted(r.arr) ==> bubble_passes(r, i, n).arr == r.arr && swap_count(
            bubble_passes(r, i, n).trace,
        ) == swap_count(r.trace),
    decreases n - 1 - i,
{
    if i < n - 1 {
        lemma_bubble_pass_counts(r, 0, n - 1 - i);
        lemma_bubble_pass(r, 0, n - 1 - i, isize::MAX as int);
        lemma_bubble_counts(bubble_pass(r, 0, n - 1 - i), i + 1, n);
    }
}

} // verus!
