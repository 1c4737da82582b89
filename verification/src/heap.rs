//! What heap sort does, as a function on runs, and why it sorts.
use crate::run::{
    extends, lemma_compare, lemma_extends_chain, lemma_extends_self, lemma_swap, Run,
};
use crate::trace::{same_outside, sorted_range, within};
use vstd::prelude::*;

verus! {

/// Sifting the element at `i` down in a heap of the first `n` elements:
/// the parent is compared with its left child, the greater of the two
/// with the right child, and if a child is the greatest it changes places
/// with the parent and the sifting goes on from there.
pub open spec fn heapify_run(r: Run, n: int, i: int) -> Run
    decreases n - i,
{
    let left = 2 * i + 1;
    let right = 2 * i + 2;
    let seen_left = if left < n {
        r.compare(i, left)
    } else {
        r
    };
    let greater = if left < n && r.arr[left] > r.arr[i] {
        left
    } else {
        i
    };
    let seen = if right < n {
        seen_left.compare(greater, right)
    } else {
        seen_left
    };
    let greatest = if right < n && r.arr[right] > r.arr[greater] {
        right
    } else {
        greater
    };
    if 0 <= i && greatest != i {
        heapify_run(seen.swap(i, greatest), n, greatest)
    } else {
        seen
    }
}

/// Building the heap: the elements `k - 1`, ..., `0` are sifted down in
/// that order.
pub open spec fn heap_build_run(r: Run, n: int, k: int) -> Run
    decreases k,
{
    if k <= 0 {
        r
    } else {
        heap_build_run(heapify_run(r, n, k - 1), n, k - 1)
    }
}

/// Taking the heap of the first `k` elements apart: the root changes
/// places with the last element of the heap, the heap shrinks by one and
/// the new root is sifted down, until nothing is left.
pub open spec fn heap_drain_run(r: Run, k: int) -> Run
    decreases k,
{
    if k <= 0 {
        r
    } else {
        heap_drain_run(heapify_run(r.swap(0, k - 1), k - 1, 0), k - 1)
    }
}

/// The run that heap sort leaves when it starts from `r`.
pub open spec fn heap_run(r: Run) -> Run {
    let n = r.arr.len() as int;
    if n < 2 {
        r
    } else {
        heap_drain_run(heap_build_run(r, n, n / 2), n)
    }
}

/// Within the first `n` elements, the element at `k` is not smaller than
/// the children of `i`.
pub open spec fn dominates(a: Seq<isize>, k: int, i: int, n: int) -> bool {
    &&& 2 * i + 1 < n ==> a[k] >= a[2 * i + 1]
    &&& 2 * i + 2 < n ==> a[k] >= a[2 * i + 2]
}

/// Within the first `n` elements, the element at `k` is not smaller than
/// its children.
pub open spec fn heap_at(a: Seq<isize>, k: int, n: int) -> bool {
    dominates(a, k, k, n)
}

/// Within the first `n` elements, no element from `lo` on is smaller than
/// its children.
pub open spec fn heap_from(a: Seq<isize>, lo: int, n: int) -> bool {
    forall|k: int| lo <= k < n ==> heap_at(a, k, n)
}

/// Sifting down continues the run. Only elements of the heap from `i` on
/// can move, and they stay within the bounds they had; where `i` is not
/// below `n`, nothing happens.
pub proof fn lemma_heapify_run(r: Run, n: int, i: int, low: int, high: int)
    requires
        0 <= i,
        n <= r.arr.len() <= usize::MAX,
        within(r.arr, i, n - 1, low, high),
    ensures
        extends(r, heapify_run(r, n, i)),
        same_outside(r.arr, heapify_run(r, n, i).arr, i, n - 1),
        within(heapify_run(r, n, i).arr, i, n - 1, low, high),
        i >= n ==> heapify_run(r, n, i) == r,
    decreases n - i,
{
    let left = 2 * i + 1;
    let right = 2 * i + 2;
    lemma_extends_self(r);
    let seen_left = if left < n {
        r.compare(i, left)
    } else {
        r
    };
    if left < n {
        lemma_compare(r, i, left);
    }
    let greater = if left < n && r.arr[left] > r.arr[i] {
        left
    } else {
        i
    };
    let seen = if right < n {
        seen_left.compare(greater, right)
    } else {
        seen_left
    };
    if right < n {
        lemma_compare(seen_left, greater, right);
        lemma_extends_chain(r, seen_left, seen);
    }
    let greatest = if right < n && r.arr[right] > r.arr[greater] {
        right
    } else {
        greater
    };
    if greatest != i {
        let moved = seen.swap(i, greatest);
        lemma_swap(seen, i, greatest);
        lemma_extends_chain(r, seen, moved);
        assert(within(moved.arr, greatest, n - 1, low, high)) by {
            assert(low <= r.arr[i] <= high);
            assert forall|k: int| greatest <= k <= n - 1 implies low <= #[trigger] moved.arr[k]
                <= high by {
                if k != greatest {
                    assert(low <= r.arr[k] <= high);
                }
            }
        }
        lemma_heapify_run(moved, n, greatest, low, high);
        let out = heapify_run(moved, n, greatest);
        lemma_extends_chain(r, moved, out);
        assert forall|k: int| i <= k <= n - 1 implies low <= #[trigger] out.arr[k] <= high by {
            if k < greatest {
                assert(out.arr[k] == moved.arr[k]);
                if k == i {
                    assert(low <= r.arr[greatest] <= high);
                } else {
                    assert(low <= r.arr[k] <= high);
                }
            }
        }
    }
}

/// Sifting down repairs a heap that is broken only at `i`: if every
/// element from `lo` on but `i` dominates its children, and the parent of
/// `i` dominates the children of `i`, then afterwards every element from
/// `lo` on dominates its children.
pub proof fn lemma_heapify(r: Run, n: int, i: int, lo: int)
    requires
        0 <= lo <= i < n <= r.arr.len() <= usize::MAX,
        forall|k: int| lo <= k < n && k != i ==> heap_at(r.arr, k, n),
        forall|k: int|
            lo <= k < i && (2 * k + 1 == i || 2 * k + 2 == i) ==> #[trigger] dominates(
                r.arr,
                k,
                i,
                n,
            ),
    ensures
        heap_from(heapify_run(r, n, i).arr, lo, n),
    decreases n - i,
{
    let left = 2 * i + 1;
    let right = 2 * i + 2;
    let greater = if left < n && r.arr[left] > r.arr[i] {
        left
    } else {
        i
    };
    let greatest = if right < n && r.arr[right] > r.arr[greater] {
        right
    } else {
        greater
    };
    let seen_left = if left < n {
        r.compare(i, left)
    } else {
        r
    };
    let seen = if right < n {
        seen_left.compare(greater, right)
    } else {
        seen_left
    };
    if greatest != i {
        let moved = seen.swap(i, greatest);
        assert(heap_at(r.arr, greatest, n));
        assert forall|k: int| lo <= k < n && k != greatest implies heap_at(moved.arr, k, n) by {
            if k != i {
                assert(heap_at(r.arr, k, n));
                if 2 * k + 1 == i || 2 * k + 2 == i {
                    assert(dominates(r.arr, k, i, n));
                }
            }
        }
        assert forall|k: int|
            lo <= k < greatest && (2 * k + 1 == greatest || 2 * k + 2 == greatest)
            implies #[trigger] dominates(moved.arr, k, greatest, n) by {
            assert(k == i);
        }
        lemma_heapify(moved, n, greatest, lo);
    } else {
        assert forall|k: int| lo <= k < n implies heap_at(seen.arr, k, n) by {
            if k != i {
                assert(heap_at(r.arr, k, n));
            }
        }
    }
}

/// In a heap no element is greater than the root.
pub proof fn lemma_root_greatest(a: Seq<isize>, n: int, k: int)
    requires
        heap_from(a, 0, n),
        0 <= k < n <= a.len(),
    ensures
        a[k] <= a[0],
    decreases k,
{
    if k > 0 {
        let parent = (k - 1) / 2;
        assert(heap_at(a, parent, n));
        lemma_root_greatest(a, n, parent);
    }
}

/// Building the heap from `k - 1` down makes the whole array a heap, given
/// that it is one from `k` on.
pub proof fn lemma_heap_build(r: Run, n: int, k: int)
    requires
        0 <= k <= n,
        n == r.arr.len() <= usize::MAX,
        heap_from(r.arr, k, n),
    ensures
        heap_from(heap_build_run(r, n, k).arr, 0, n),
        extends(r, heap_build_run(r, n, k)),
    decreases k,
{
    if k <= 0 {
        lemma_extends_self(r);
    } else {
        assert forall|j: int| k - 1 <= j < n && j != k - 1 implies heap_at(r.arr, j, n) by {
            assert(heap_at(r.arr, j, n));
        }
        lemma_heapify(r, n, k - 1, k - 1);
        lemma_heapify_run(r, n, k - 1, isize::MIN as int, isize::MAX as int);
        let next = heapify_run(r, n, k - 1);
        lemma_heap_build(next, n, k - 1);
        lemma_extends_chain(r, next, heap_build_run(next, n, k - 1));
    }
}

/// Taking a heap apart sorts the array: given a heap of the first `k`
/// elements, none of them greater than any later element, and the later
/// elements sorted.
pub proof fn lemma_heap_drain(r: Run, k: int)
    requires
        0 <= k <= r.arr.len() <= usize::MAX,
        heap_from(r.arr, 0, k),
        sorted_range(r.arr, k, r.arr.len() - 1),
        forall|p: int, q: int| 0 <= p < k <= q < r.arr.len() ==> r.arr[p] <= r.arr[q],
    ensures
        sorted_range(heap_drain_run(r, k).arr, 0, r.arr.len() - 1),
        extends(r, heap_drain_run(r, k)),
    decreases k,
{
    let n = r.arr.len() as int;
    if k <= 0 {
        lemma_extends_self(r);
    } else {
        let moved = r.swap(0, k - 1);
        lemma_swap(r, 0, k - 1);
        let top = r.arr[0] as int;
        assert forall|j: int| 0 <= j <= k - 2 implies isize::MIN <= #[trigger] moved.arr[j]
            <= top by {
            lemma_root_greatest(r.arr, k, j);
            lemma_root_greatest(r.arr, k, k - 1);
        }
        let m = k - 1;
        let next = heapify_run(moved, m, 0);
        lemma_heapify_run(moved, m, 0, isize::MIN as int, top);
        if m > 0 {
            assert forall|j: int| 0 <= j < m && j != 0 implies heap_at(moved.arr, j, m) by {
                assert(heap_at(r.arr, j, k));
            }
            lemma_heapify(moved, m, 0, 0);
        }
        lemma_extends_chain(r, moved, next);
        assert(next.arr[k - 1] == top);
        assert forall|p: int, q: int| 0 <= p < k - 1 <= q < n implies next.arr[p]
            <= next.arr[q] by {
            assert(isize::MIN <= next.arr[p] <= top);
            if q > k - 1 {
                assert(r.arr[0] <= r.arr[q]);
            }
        }
        assert forall|p: int, q: int| k - 1 <= p <= q <= n - 1 implies next.arr[p]
            <= next.arr[q] by {
            if p == k - 1 && q > k - 1 {
                assert(r.arr[0] <= r.arr[q]);
            }
        }
        lemma_heap_drain(next, k - 1);
        lemma_extends_chain(r, next, heap_drain_run(next, k - 1));
    }
}

/// Heap sort sorts, and its steps replay to its result.
pub proof fn lemma_heap_run(r: Run)
    requires
        r.arr.len() <= usize::MAX,
    ensures
        sorted_range(heap_run(r).arr, 0, r.arr.len() - 1),
        extends(r, heap_run(r)),
{
    let n = r.arr.len() as int;
    if n < 2 {
        lemma_extends_self(r);
    } else {
        lemma_heap_build(r, n, n / 2);
        let built = heap_build_run(r, n, n / 2);
        lemma_heap_drain(built, n);
        lemma_extends_chain(r, built, heap_drain_run(built, n));
    }
}

} // verus!
