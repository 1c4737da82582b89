//! What selection sort does, as a function on runs, and why it sorts.
use crate::run::{extends, lemma_compare_swap, lemma_extends_chain, lemma_extends_self, Run};
use crate::trace::{
    compare_count, same_outside, sorted, sorted_range, swap_count, triangle, within,
};
use vstd::prelude::*;

verus! {

/// Pass `i` of selection sort from `j` on: slot `i` is compared with each
/// of `j`, ..., `n - 1` and takes the smaller element each time.
pub open spec fn selection_pass(r: Run, i: int, j: int, n: int) -> Run
    decreases n - j,
{
    if j >= n {
        r
    } else {
        selection_pass(r.compare_swap(i, j), i, j + 1, n)
    }
}

/// The passes `i`, ..., `n - 2` of selection sort; pass `i` starts by
/// comparing slot `i` with itself.
pub open spec fn selection_passes(r: Run, i: int, n: int) -> Run
    decreases n - 1 - i,
{
    if i >= n - 1 {
        r
    } else {
        selection_passes(selection_pass(r, i, i, n), i + 1, n)
    }
}

/// The run that selection sort leaves when it starts from `r`.
pub open spec fn selection_run(r: Run) -> Run {
    selection_passes(r, 0, r.arr.len() as int)
}

/// A pass leaves in slot `i` the least element from `i` on: given that
/// slot `i` holds the least of `[i, j)`, the pass from `j` on leaves there
/// an element that none after it falls below. Nothing before `i` moves,
/// and what stands from `i` on stays above the bound it had.
pub proof fn lemma_selection_pass(r: Run, i: int, j: int, n: int, lo: int)
    requires
        0 <= i <= j <= n,
        i < n,
        n == r.arr.len() <= usize::MAX,
        forall|q: int| i <= q < j ==> r.arr[i] <= r.arr[q],
        within(r.arr, i, n - 1, lo, isize::MAX as int),
    ensures
        extends(r, selection_pass(r, i, j, n)),
        same_outside(r.arr, selection_pass(r, i, j, n).arr, i, n - 1),
        within(selection_pass(r, i, j, n).arr, i, n - 1, lo, isize::MAX as int),
        forall|q: int|
            i <= q < n ==> selection_pass(r, i, j, n).arr[i] <= selection_pass(r, i, j, n).arr[q],
    decreases n - j,
{
    if j >= n {
        lemma_extends_self(r);
    } else {
        let next = r.compare_swap(i, j);
        lemma_compare_swap(r, i, j);
        assert(within(next.arr, i, n - 1, lo, isize::MAX as int)) by {
            assert(lo <= r.arr[i]);
            assert(lo <= r.arr[j]);
            assert forall|k: int| i <= k <= n - 1 implies lo <= #[trigger] next.arr[k]
                <= isize::MAX by {
                if k != i && k != j {
                    assert(lo <= r.arr[k]);
                }
            }
        }
        lemma_selection_pass(next, i, j + 1, n, lo);
        lemma_extends_chain(r, next, selection_pass(next, i, j + 1, n));
    }
}

/// The passes from `i` on sort the array, given that its first `i`
/// elements are sorted and none of them exceeds any later one.
pub proof fn lemma_selection_passes(r: Run, i: int, n: int)
    requires
        n == r.arr.len() <= usize::MAX,
        0 <= i <= n,
        sorted_range(r.arr, 0, i - 1),
        forall|p: int, q: int| 0 <= p < i <= q < n ==> r.arr[p] <= r.arr[q],
    ensures
        extends(r, selection_passes(r, i, n)),
        sorted_range(selection_passes(r, i, n).arr, 0, n - 1),
    decreases n - 1 - i,
{
    if i >= n - 1 {
        lemma_extends_self(r);
    } else {
        let lo = if i == 0 {
            isize::MIN as int
        } else {
            r.arr[i - 1] as int
        };
        assert(within(r.arr, i, n - 1, lo, isize::MAX as int));
        lemma_selection_pass(r, i, i, n, lo);
        let next = selection_pass(r, i, i, n);
        assert forall|p: int, q: int| 0 <= p < i + 1 <= q < n implies next.arr[p]
            <= next.arr[q] by {
            assert(lo <= next.arr[q]);
            if p < i {
                assert(r.arr[p] <= r.arr[i - 1]);
            }
        }
        assert forall|p: int, q: int| 0 <= p <= q <= i implies next.arr[p] <= next.arr[q] by {
            if p < i && q == i {
                assert(lo <= next.arr[i]);
                assert(r.arr[p] <= r.arr[i - 1]);
            }
        }
        lemma_selection_passes(next, i + 1, n);
        lemma_extends_chain(r, next, selection_passes(next, i + 1, n));
    }
}

/// Pass `i` from `j` on makes `n - j` comparisons, whatever the array
/// holds. Where slot `i` holds nothing greater than what follows from `j`
/// on, it swaps nothing.
pub proof fn lemma_selection_pass_counts(r: Run, i: int, j: int, n: int)
    requires
        0 <= i <= j <= n,
        i < n,
        n == r.arr.len() <= usize::MAX,
    ensures
        compare_count(selection_pass(r, i, j, n).trace) == compare_count(r.trace) + (n - j),
        (forall|q: int| j <= q < n ==> r.arr[i] <= r.arr[q]) ==> selection_pass(r, i, j, n).arr
            == r.arr && swap_count(selection_pass(r, i, j, n).trace) == swap_count(r.trace),
    decreases n - j,
{
    if j < n {
        lemma_compare_swap(r, i, j);
        lemma_selection_pass_counts(r.compare_swap(i, j), i, j + 1, n);
    }
}

/// The passes from `i` on make `2 + 3 + ... + (n - i)` comparisons,
/// whatever the array holds. On a sorted array they swap nothing.
pub proof fn lemma_selection_counts(r: Run, i: int, n: int)
    requires
        n == r.arr.len() <= usize::MAX,
        0 <= i < n,
    ensures
        compare_count(selection_passes(r, i, n).trace) == compare_count(r.trace) + triangle(
            (n - i) as nat,
        ) - 1,
        sorted(r.arr) ==> selection_passes(r, i, n).arr == r.arr && swap_count(
            selection_passes(r, i, n).trace,
        ) == swap_count(r.trace),
    decreases n - 1 - i,
{
    if i < n - 1 {
        lemma_selection_pass_counts(r, i, i, n);
        lemma_selection_pass(r, i, i, n, isize::MIN as int);
        lemma_selection_counts(selection_pass(r, i, i, n), i + 1, n);
    } else {
        assert(triangle(1) == 1 + triangle(0));
    }
}

} // verus!
