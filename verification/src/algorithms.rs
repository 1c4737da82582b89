//! The sorting algorithms, each recording the steps it takes.
//!
//! Every function here appends to the trace it is given and is specified
//! as a function on runs: the array and trace it leaves are those that
//! the matching spec function gives for the array and trace it found.
use crate::bubble::{
    bubble_pass, bubble_passes, bubble_run, lemma_bubble_counts, lemma_bubble_passes,
};
use crate::heap::{
    heap_build_run, heap_drain_run, heap_from, heap_run, heapify_run, lemma_heap_run,
    lemma_heapify, lemma_heapify_run,
};
use crate::insertion::{
    insertion_passes, insertion_run, insertion_walk, lemma_insertion_passes,
    lemma_insertion_sorted_counts,
};
use crate::merging::{
    lemma_merge_run, lemma_merge_sort_run, merge_looks, merge_run, merge_sort_run,
};
use crate::quick::{
    lemma_partition_walk, lemma_pushed, lemma_quick_range, partition_run, partition_walk,
    quick_pending_run, quick_range_run, quick_run, stack_weight,
};
use crate::run::{extends, run};
use crate::selection::{
    lemma_selection_counts, lemma_selection_passes, selection_pass, selection_passes,
    selection_run,
};
use crate::trace::{
    compare_count, lemma_merge_cursor, merge_at, merge_cursor, same_outside, sorted,
    sorted_range, swap_at, swap_count, takes_left, triangle, Step,
};
use std::collections::VecDeque;
use vstd::prelude::*;

verus! {

/// Records a comparison of the elements at `i` and `j` and, if the first
/// is the greater, swaps them and records that too.
fn compare_and_swap(arr: &mut [isize], steps: &mut VecDeque<Step>, i: usize, j: usize) -> (moved:
    bool)
    requires
        i < old(arr)@.len(),
        j < old(arr)@.len(),
    ensures
        moved == (old(arr)@[i as int] > old(arr)@[j as int]),
        run(final(arr)@, final(steps)@) == run(old(arr)@, old(steps)@).compare_swap(
            i as int,
            j as int,
        ),
{
    steps.push_back(Step::Compare(i, j));
    if arr[i] > arr[j] {
        swap_at(arr, i, j);
        steps.push_back(Step::Swap(i, j));
        true
    } else {
        false
    }
}

/// Bubble sort: pass `i` compares each pair of neighbours below the last
/// `i` elements and swaps a pair that is out of order.
///
/// The steps are appended to `steps`. The array ends sorted, with the
/// elements it had, and it is what replaying the new steps on the old
/// array gives. A sorted array is never swapped, and the number of
/// comparisons is `1 + 2 + ... + (len - 1)` whatever the array holds. An
/// array of fewer than two elements gives no step.
pub fn bubble_sort(arr: &mut [isize], steps: &mut VecDeque<Step>)
    ensures
        run(final(arr)@, final(steps)@) == bubble_run(run(old(arr)@, old(steps)@)),
        extends(run(old(arr)@, old(steps)@), run(final(arr)@, final(steps)@)),
        sorted(final(arr)@),
        sorted(old(arr)@) ==> swap_count(final(steps)@) == swap_count(old(steps)@),
        old(arr)@.len() >= 1 ==> compare_count(final(steps)@) == compare_count(old(steps)@)
            + triangle((old(arr)@.len() - 1) as nat),
        old(arr)@.len() < 2 ==> final(steps)@ == old(steps)@,
{
    let n = arr.len();
    let ghost from = run(arr@, steps@);
    proof {
        lemma_bubble_passes(from, 0, n as int);
        if n >= 1 {
            lemma_bubble_counts(from, 0, n as int);
        }
    }
    if n < 2 {
        return ;
    }
    let mut i: usize = 0;
    while i < n - 1
        invariant
            n == arr@.len(),
            n >= 2,
            i <= n - 1,
            bubble_passes(run(arr@, steps@), i as int, n as int) == bubble_run(from),
        decreases n - 1 - i,
    {
        let mut j: usize = 0;
        while j < n - 1 - i
            invariant
                n == arr@.len(),
                i < n - 1,
                j <= n - 1 - i,
                bubble_passes(
                    bubble_pass(run(arr@, steps@), j as int, n - 1 - i),
                    i + 1,
                    n as int,
                ) == bubble_run(from),
            decreases n - 1 - i - j,
        {
            compare_and_swap(arr, steps, j, j + 1);
            j += 1;
        }
        i += 1;
    }
}

/// Selection sort: pass `i` compares slot `i` with every slot from `i` on
/// and swaps whenever slot `i` holds the greater element, so that the
/// least element of the rest ends in slot `i`.
///
/// The steps are appended to `steps`. The array ends sorted, with the
/// elements it had, and it is what replaying the new steps on the old
/// array gives. A sorted array is never swapped, and the number of
/// comparisons is `2 + 3 + ... + len` whatever the array holds. An array
/// of fewer than two elements gives no step.
pub fn selection_sort(arr: &mut [isize], steps: &mut VecDeque<Step>)
    ensures
        run(final(arr)@, final(steps)@) == selection_run(run(old(arr)@, old(steps)@)),
        extends(run(old(arr)@, old(steps)@), run(final(arr)@, final(steps)@)),
        sorted(final(arr)@),
        sorted(old(arr)@) ==> swap_count(final(steps)@) == swap_count(old(steps)@),
        old(arr)@.len() >= 1 ==> compare_count(final(steps)@) == compare_count(old(steps)@)
            + triangle(old(arr)@.len()) - 1,
        old(arr)@.len() < 2 ==> final(steps)@ == old(steps)@,
{
    let n = arr.len();
    let ghost from = run(arr@, steps@);
    proof {
        lemma_selection_passes(from, 0, n as int);
        if n >= 1 {
            lemma_selection_counts(from, 0, n as int);
        }
    }
    if n < 2 {
        return ;
    }
    let mut i: usize = 0;
    while i < n - 1
        invariant
            n == arr@.len(),
            n >= 2,
            i <= n - 1,
            selection_passes(run(arr@, steps@), i as int, n as int) == selection_run(from),
        decreases n - 1 - i,
    {
        let mut j: usize = i;
        while j < n
            invariant
                n == arr@.len(),
                i < n - 1,
                i <= j <= n,
                selection_passes(
                    selection_pass(run(arr@, steps@), i as int, j as int, n as int),
                    i + 1,
                    n as int,
                ) == selection_run(from),
            decreases n - j,
        {
            compare_and_swap(arr, steps, i, j);
            j += 1;
        }
        i += 1;
    }
}

/// Insertion sort: the element at `i` walks down while its left neighbour
/// is greater; each look at the neighbour is a comparison, each move a
/// swap, and the walk ends at the first neighbour that is not greater.
///
/// The steps are appended to `steps`. The array ends sorted, with the
/// elements it had, and it is what replaying the new steps on the old
/// array gives. On a sorted array every walk ends at its first
/// comparison: there are `len - 1` comparisons and no swap. An array of
/// fewer than two elements gives no step.
pub fn insertion_sort(arr: &mut [isize], steps: &mut VecDeque<Step>)
    ensures
        run(final(arr)@, final(steps)@) == insertion_run(run(old(arr)@, old(steps)@)),
        extends(run(old(arr)@, old(steps)@), run(final(arr)@, final(steps)@)),
        sorted(final(arr)@),
        sorted(old(arr)@) ==> swap_count(final(steps)@) == swap_count(old(steps)@),
        sorted(old(arr)@) && old(arr)@.len() >= 1 ==> compare_count(final(steps)@)
            == compare_count(old(steps)@) + old(arr)@.len() - 1,
        old(arr)@.len() < 2 ==> final(steps)@ == old(steps)@,
{
    let n = arr.len();
    let ghost from = run(arr@, steps@);
    proof {
        lemma_insertion_passes(from, 1, n as int);
        if n >= 1 && sorted(from.arr) {
            lemma_insertion_sorted_counts(from, 1, n as int);
        }
    }
    let mut i: usize = 1;
    while i < n
        invariant
            n == arr@.len(),
            1 <= i,
            n >= 1 ==> i <= n,
            insertion_passes(run(arr@, steps@), i as int, n as int) == insertion_run(from),
        decreases n - i,
    {
        let mut j: usize = i;
        let mut walking = true;
        while walking && j > 0
            invariant
                n == arr@.len(),
                i < n,
                j <= i,
                insertion_passes(
                    if walking {
                        insertion_walk(run(arr@, steps@), j as int)
                    } else {
                        run(arr@, steps@)
                    },
                    i + 1,
                    n as int,
                ) == insertion_run(from),
            decreases j + if walking { 1nat } else { 0nat },
        {
            let moved = compare_and_swap(arr, steps, j - 1, j);
            if moved {
                j -= 1;
            } else {
                walking = false;
            }
        }
        i += 1;
    }
}

/// Merges the runs `[start, mid]` and `[mid + 1, end]` of `arr` into
/// `[start, end]`, stably: of two equal elements the one from the left
/// run comes first.
///
/// For each element put out, a comparison is recorded between the current
/// position in the left run and, offset from `mid`, the number taken from
/// the right run; one `Merge` step follows. The merge is made whatever
/// the runs hold; if both were sorted, so is the range afterwards.
pub fn merge(arr: &mut [isize], start: usize, mid: usize, end: usize, steps: &mut VecDeque<Step>)
    requires
        start <= mid,
        mid <= end,
        end < old(arr)@.len(),
    ensures
        run(final(arr)@, final(steps)@) == merge_run(
            run(old(arr)@, old(steps)@),
            start as int,
            mid as int,
            end as int,
        ),
        extends(run(old(arr)@, old(steps)@), run(final(arr)@, final(steps)@)),
        same_outside(old(arr)@, final(arr)@, start as int, end as int),
        sorted_range(old(arr)@, start as int, mid as int) && sorted_range(
            old(arr)@,
            mid + 1,
            end as int,
        ) ==> sorted_range(final(arr)@, start as int, end as int),
{
    let ghost from = run(arr@, steps@);
    let ghost left = arr@.subrange(start as int, mid + 1);
    let ghost right = arr@.subrange(mid + 1, end + 1);
    let ghost looks = merge_looks(left, right, start as int, mid as int);
    let ghost n = arr.len();
    let left_len = mid - start + 1;
    let right_len = end - mid;
    let total = end - start + 1;
    let mut i: usize = 0;
    let mut j: usize = 0;
    let mut k: usize = 0;
    proof {
        lemma_merge_run(from, start as int, mid as int, end as int);
        assert(steps@ =~= from.trace + looks.take(0));
    }
    while k < total
        invariant
            start <= mid,
            mid <= end,
            end < n,
            n == arr@.len(),
            arr@ == from.arr,
            left == arr@.subrange(start as int, mid + 1),
            right == arr@.subrange(mid + 1, end + 1),
            looks == merge_looks(left, right, start as int, mid as int),
            left_len == mid - start + 1,
            right_len == end - mid,
            total == end - start + 1,
            k <= total,
            merge_cursor(left, right, k as nat) == (i as int, j as int),
            steps@ == from.trace + looks.take(k as int),
        decreases total - k,
    {
        proof {
            lemma_merge_cursor(left, right, k as nat);
            assert(merge_cursor(left, right, (k + 1) as nat) == if takes_left(
                left,
                right,
                i as int,
                j as int,
            ) {
                (i + 1, j as int)
            } else {
                (i as int, j + 1)
            });
            assert(steps@.push(Step::Compare((start + i) as usize, (mid + j) as usize))
                =~= from.trace + looks.take(k + 1));
        }
        steps.push_back(Step::Compare(start + i, mid + j));
        if i < left_len && (j >= right_len || arr[start + i] <= arr[mid + 1 + j]) {
            i += 1;
        } else {
            j += 1;
        }
        k += 1;
    }
    proof {
        assert(looks.take(total as int) =~= looks);
    }
    merge_at(arr, start, mid, end);
    steps.push_back(Step::Merge(start, mid, end));
}

/// Merge sort on the inclusive range `[start, end]`: the left half
/// `[start, mid]`, with `mid = start + (end - start) / 2`, then the right
/// half, then their merge.
///
/// The steps are appended to `steps`. The range ends sorted, the rest of
/// the array stays as it was, and the array is what replaying the new
/// steps on the old array gives. A range of one element gives no step.
pub fn merge_sort(arr: &mut [isize], start: usize, end: usize, steps: &mut VecDeque<Step>)
    requires
        start <= end,
        end < old(arr)@.len(),
    ensures
        run(final(arr)@, final(steps)@) == merge_sort_run(
            run(old(arr)@, old(steps)@),
            start as int,
            end as int,
        ),
        extends(run(old(arr)@, old(steps)@), run(final(arr)@, final(steps)@)),
        same_outside(old(arr)@, final(arr)@, start as int, end as int),
        sorted_range(final(arr)@, start as int, end as int),
        start == end ==> final(steps)@ == old(steps)@,
    decreases end - start,
{
    proof {
        assert(arr@.len() == arr.len());
        lemma_merge_sort_run(run(arr@, steps@), start as int, end as int);
    }
    if start < end {
        let mid = start + (end - start) / 2;
        merge_sort(arr, start, mid, steps);
        merge_sort(arr, mid + 1, end, steps);
        merge(arr, start, mid, end, steps);
    }
}

/// Lomuto partition of the inclusive range `[start, end]` around its last
/// element: each of `start`, ..., `end - 1` is compared with the pivot
/// and, if smaller, swapped to the boundary; at the end the pivot is
/// swapped to the boundary, whose index is returned.
///
/// The steps are appended to `steps`. Below the returned index stand the
/// elements smaller than the pivot, above it the others; the rest of the
/// array stays as it was.
pub fn partition(arr: &mut [isize], start: usize, end: usize, steps: &mut VecDeque<Step>) -> (pivot:
    usize)
    requires
        start <= end,
        end < old(arr)@.len(),
    ensures
        (run(final(arr)@, final(steps)@), pivot as int) == partition_run(
            run(old(arr)@, old(steps)@),
            start as int,
            end as int,
        ),
        start <= pivot <= end,
        extends(run(old(arr)@, old(steps)@), run(final(arr)@, final(steps)@)),
        same_outside(old(arr)@, final(arr)@, start as int, end as int),
        final(arr)@[pivot as int] == old(arr)@[end as int],
        forall|k: int| start <= k < pivot ==> final(arr)@[k] < final(arr)@[pivot as int],
        forall|k: int| pivot < k <= end ==> final(arr)@[k] >= final(arr)@[pivot as int],
{
    let ghost n = arr.len();
    let ghost from = run(arr@, steps@);
    let value = arr[end];
    let mut i: usize = start;
    let mut j: usize = start;
    proof {
        lemma_partition_walk(
            from,
            start as int,
            start as int,
            start as int,
            end as int,
            isize::MIN as int,
            isize::MAX as int,
        );
    }
    while j < end
        invariant
            start <= i <= j <= end < n,
            n == arr@.len(),
            arr@[end as int] == value,
            partition_walk(run(arr@, steps@), i as int, j as int, end as int) == partition_run(
                from,
                start as int,
                end as int,
            ),
        decreases end - j,
    {
        steps.push_back(Step::Compare(j, end));
        if arr[j] < value {
            swap_at(arr, i, j);
            steps.push_back(Step::Swap(i, j));
            i += 1;
        }
        j += 1;
    }
    swap_at(arr, i, end);
    steps.push_back(Step::Swap(i, end));
    i
}

/// Quick sort with an explicit stack of ranges in place of recursion:
/// the range on top is partitioned, then the part above the pivot is
/// pushed and, on top of it, the part below, unless the pivot stands at
/// the start of the range.
///
/// The steps are appended to `steps`. The array ends sorted, with the
/// elements it had, and it is what replaying the new steps on the old
/// array gives. An array of fewer than two elements gives no step.
pub fn quick_sort(arr: &mut [isize], steps: &mut VecDeque<Step>)
    ensures
        run(final(arr)@, final(steps)@) == quick_run(run(old(arr)@, old(steps)@)),
        extends(run(old(arr)@, old(steps)@), run(final(arr)@, final(steps)@)),
        sorted(final(arr)@),
        old(arr)@.len() < 2 ==> final(steps)@ == old(steps)@,
{
    let n = arr.len();
    let ghost from = run(arr@, steps@);
    proof {
        lemma_quick_range(from, 0, n - 1, isize::MIN as int, isize::MAX as int);
    }
    if n < 2 {
        return ;
    }
    let mut stack: Vec<(usize, usize)> = Vec::new();
    stack.push((0, n - 1));
    proof {
        lemma_pushed(from, Seq::<(usize, usize)>::empty(), (0usize, (n - 1) as usize));
        assert(stack@ =~= Seq::<(usize, usize)>::empty().push((0usize, (n - 1) as usize)));
    }
    while stack.len() > 0
        invariant
            n == arr@.len(),
            quick_pending_run(run(arr@, steps@), stack@) == quick_run(from),
            forall|t: int|
                0 <= t < stack@.len() ==> (#[trigger] stack@[t]).0 <= stack@[t].1 + 1
                    && stack@[t].1 < n,
        decreases stack_weight(stack@),
    {
        let ghost pending = stack@;
        let top = stack.pop().unwrap();
        let start = top.0;
        let end = top.1;
        let ghost rest = stack@;
        proof {
            assert(pending.drop_last() =~= rest);
            assert(pending.last() == top);
        }
        if start < end {
            let pivot = partition(arr, start, end, steps);
            let ghost parted = run(arr@, steps@);
            proof {
                lemma_pushed(
                    quick_range_run(parted, start as int, pivot - 1),
                    rest,
                    ((pivot + 1) as usize, end),
                );
                lemma_pushed(parted, rest.push(((pivot + 1) as usize, end)), (
                    start,
                    (pivot - 1) as usize,
                ));
                lemma_pushed(parted, rest, ((pivot + 1) as usize, end));
            }
            stack.push((pivot + 1, end));
            if pivot > start {
                stack.push((start, pivot - 1));
            }
        }
    }
}

/// Sifts the element at `i` down in the heap made of the first `n`
/// elements: the parent is compared with its left child, the greater of
/// the two with the right child, and if a child is the greatest it is
/// swapped with the parent and the sifting goes on from the child's
/// place. Where `i` is not below `n`, nothing happens.
///
/// The steps are appended to `steps`. Only elements of the heap from `i`
/// on can move. If every element after `i` was no smaller than its
/// children, then afterwards so is every element from `i` on.
pub fn heapify(arr: &mut [isize], n: usize, i: usize, steps: &mut VecDeque<Step>)
    requires
        n <= old(arr)@.len(),
    ensures
        run(final(arr)@, final(steps)@) == heapify_run(
            run(old(arr)@, old(steps)@),
            n as int,
            i as int,
        ),
        extends(run(old(arr)@, old(steps)@), run(final(arr)@, final(steps)@)),
        same_outside(old(arr)@, final(arr)@, i as int, n - 1),
        i >= n ==> final(arr)@ == old(arr)@ && final(steps)@ == old(steps)@,
        i < n && heap_from(old(arr)@, i + 1, n as int) ==> heap_from(
            final(arr)@,
            i as int,
            n as int,
        ),
    decreases n - i,
{
    let ghost from = run(arr@, steps@);
    proof {
        assert(arr@.len() == arr.len());
        lemma_heapify_run(from, n as int, i as int, isize::MIN as int, isize::MAX as int);
        if i < n && heap_from(from.arr, i + 1, n as int) {
            lemma_heapify(from, n as int, i as int, i as int);
        }
    }
    if i >= n {
        return ;
    }
    // With `room` places after `i`, the left child `2 * i + 1` lies in the
    // heap when `i < room` and the right child when `i + 1 < room`: no
    // index is computed before it is known to lie below `n`.
    let room = n - i - 1;
    let has_left = i < room;
    let has_right = has_left && i + 1 < room;
    let mut largest = i;
    if has_left {
        let left = i + i + 1;
        steps.push_back(Step::Compare(largest, left));
        if arr[left] > arr[largest] {
            largest = left;
        }
    }
    if has_right {
        let right = i + i + 2;
        steps.push_back(Step::Compare(largest, right));
        if arr[right] > arr[largest] {
            largest = right;
        }
    }
    if largest != i {
        swap_at(arr, i, largest);
        steps.push_back(Step::Swap(i, largest));
        heapify(arr, n, largest, steps);
    }
}

/// Heap sort: the first half of the array is sifted down from its last
/// element to its first, which makes the array a heap; then, for `i` from
/// the last index down to `0`, the root is swapped with the element at
/// `i` and sifted down in the heap of the first `i` elements.
///
/// The steps are appended to `steps`. The array ends sorted, with the
/// elements it had, and it is what replaying the new steps on the old
/// array gives. An array of fewer than two elements gives no step.
pub fn heap_sort(arr: &mut [isize], steps: &mut VecDeque<Step>)
    ensures
        run(final(arr)@, final(steps)@) == heap_run(run(old(arr)@, old(steps)@)),
        extends(run(old(arr)@, old(steps)@), run(final(arr)@, final(steps)@)),
        sorted(final(arr)@),
        old(arr)@.len() < 2 ==> final(steps)@ == old(steps)@,
{
    let n = arr.len();
    let ghost from = run(arr@, steps@);
    proof {
        lemma_heap_run(from);
    }
    if n < 2 {
        return ;
    }
    let mut k: usize = n / 2;
    while k > 0
        invariant
            n == arr@.len(),
            k <= n / 2,
            heap_build_run(run(arr@, steps@), n as int, k as int) == heap_build_run(
                from,
                n as int,
                n as int / 2,
            ),
        decreases k,
    {
        k -= 1;
        heapify(arr, n, k, steps);
    }
    let mut k: usize = n;
    while k > 0
        invariant
            n == arr@.len(),
            k <= n,
            heap_drain_run(run(arr@, steps@), k as int) == heap_run(from),
        decreases k,
    {
        k -= 1;
        swap_at(arr, 0, k);
        steps.push_back(Step::Swap(0, k));
        heapify(arr, k, 0, steps);
    }
}

} // verus!
