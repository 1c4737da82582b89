//! What insertion sort does, as a function on runs, and why it sorts.
use crate::run::{extends, lemma_compare_swap, lemma_extends_chain, lemma_extends_self, Run};
use crate::trace::{compare_count, same_outside, sorted, sorted_range, swap_count};
use vstd::prelude::*;

verus! {

/// The walk of insertion sort that carries the element at `j` down: it is
/// compared with its left neighbour and moves on only while that one is
/// greater.
pub open spec fn insertion_walk(r: Run, j: int) -> Run
    decreases j,
{
    if j <= 0 {
        r
    } else if r.arr[j - 1] > r.arr[j] {
        insertion_walk(r.compare_swap(j - 1, j), j - 1)
    } else {
        r.compare_swap(j - 1, j)
    }
}

/// The walks of insertion sort for the elements `i`, ..., `n - 1`.
pub open spec fn insertion_passes(r: Run, i: int, n: int) -> Run
    decreases n - i,
{
    if i >= n {
        r
    } else {
        insertion_passes(insertion_walk(r, i), i + 1, n)
    }
}

/// The run that insertion sort leaves when it starts from `r`.
pub open spec fn insertion_run(r: Run) -> Run {
    insertion_passes(r, 1, r.arr.len() as int)
}

/// A walk that stands at `j`, on its way down from `i`, leaves `[0, i]`
/// sorted: given that the elements before `j` are sorted, those from `j`
/// to `i` are sorted, and none before `j` exceeds any after `j`. Nothing
/// after `i` moves.
pub proof fn lemma_insertion_walk(r: Run, j: int, i: int)
    requires
        0 <= j <= i < r.arr.len() <= usize::MAX,
        sorted_range(r.arr, 0, j - 1),
        sorted_range(r.arr, j, i),
        forall|p: int, q: int| 0 <= p < j < q <= i ==> r.arr[p] <= r.arr[q],
    ensures
        extends(r, insertion_walk(r, j)),
        same_outside(r.arr, insertion_walk(r, j).arr, 0, i),
        sorted_range(insertion_walk(r, j).arr, 0, i),
    decreases j,
{
    if j <= 0 {
        lemma_extends_self(r);
    } else {
        let next = r.compare_swap(j - 1, j);
        lemma_compare_swap(r, j - 1, j);
        if r.arr[j - 1] > r.arr[j] {
            assert forall|p: int, q: int| j - 1 <= p <= q <= i implies next.arr[p]
                <= next.arr[q] by {
                if p == j - 1 && q > j {
                    assert(r.arr[j] <= r.arr[q]);
                }
            }
            lemma_insertion_walk(next, j - 1, i);
            lemma_extends_chain(r, next, insertion_walk(next, j - 1));
        } else {
            assert forall|p: int, q: int| 0 <= p <= q <= i implies r.arr[p] <= r.arr[q] by {
                if p < j && q >= j {
                    assert(r.arr[p] <= r.arr[j - 1]);
                    assert(r.arr[j] <= r.arr[q]);
                }
            }
        }
    }
}

/// The walks from `i` on sort the array, given that its first `i`
/// elements are sorted.
pub proof fn lemma_insertion_passes(r: Run, i: int, n: int)
    requires
        n == r.arr.len() <= usize::MAX,
        1 <= i,
        sorted_range(r.arr, 0, i - 1),
    ensures
        extends(r, insertion_passes(r, i, n)),
        sorted_range(insertion_passes(r, i, n).arr, 0, n - 1),
    decreases n - i,
{
    if i >= n {
        lemma_extends_self(r);
    } else {
        lemma_insertion_walk(r, i, i);
        let next = insertion_walk(r, i);
        lemma_insertion_passes(next, i + 1, n);
        lemma_extends_chain(r, next, insertion_passes(next, i + 1, n));
    }
}

/// On a sorted array every walk ends at its first comparison: the walks
/// from `i` on make `n - i` comparisons and no swap, and the array stays
/// as it is.
pub proof fn lemma_insertion_sorted_counts(r: Run, i: int, n: int)
    requires
        n == r.arr.len() <= usize::MAX,
        1 <= i <= n,
        sorted(r.arr),
    ensures
        insertion_passes(r, i, n).arr == r.arr,
        swap_count(insertion_passes(r, i, n).trace) == swap_count(r.trace),
        compare_count(insertion_passes(r, i, n).trace) == compare_count(r.trace) + (n - i),
    decreases n - i,
{
    if i < n {
        lemma_compare_swap(r, i - 1, i);
        lemma_insertion_sorted_counts(insertion_walk(r, i), i + 1, n);
    }
}

} // verus!
