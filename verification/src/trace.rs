//! The step and trace model, and what replaying a trace means.
use vstd::multiset::Multiset;
use vstd::prelude::*;
use vstd::slice::{slice_subrange, slice_to_vec};

verus! {

/// One atomic operation of a sort.
#[derive(Clone, Copy, Debug, PartialEq, Eq, Structural)]
pub enum Step {
    /// The elements at the two indices were compared; nothing moves.
    Compare(usize, usize),
    /// The elements at the two indices change places.
    Swap(usize, usize),
    /// `Merge(start, mid, end)`: the inclusive range `[start, end]` is
    /// replaced by the stable merge of `[start, mid]` and `[mid + 1, end]`.
    Merge(usize, usize, usize),
}

/// `s` is non-decreasing.
pub open spec fn sorted(s: Seq<isize>) -> bool {
    forall|i: int, j: int| 0 <= i <= j < s.len() ==> s[i] <= s[j]
}

/// Whether `a` is non-decreasing on `[start, end]`.
pub open spec fn sorted_range(a: Seq<isize>, start: int, end: int) -> bool {
    forall|p: int, q: int| start <= p <= q <= end ==> a[p] <= a[q]
}

/// Whether every element of `a` in `[start, end]` lies in `[lo, hi]`.
pub open spec fn within(a: Seq<isize>, start: int, end: int, lo: int, hi: int) -> bool {
    forall|k: int| start <= k <= end ==> lo <= #[trigger] a[k] <= hi
}

/// Whether `a` and `b` agree outside `[start, end]`.
pub open spec fn same_outside(a: Seq<isize>, b: Seq<isize>, start: int, end: int) -> bool {
    &&& a.len() == b.len()
    &&& forall|k: int| 0 <= k < a.len() && (k < start || k > end) ==> a[k] == b[k]
}

/// `s` with the elements at `i` and `j` exchanged.
pub open spec fn swapped(s: Seq<isize>, i: int, j: int) -> Seq<isize> {
    s.update(i, s[j]).update(j, s[i])
}

/// Whether a two-pointer merge that stands at `l[i]` and `r[j]` takes its
/// next element from the left run. Ties go to the left, which keeps the
/// merge stable.
pub open spec fn takes_left(l: Seq<isize>, r: Seq<isize>, i: int, j: int) -> bool {
    i < l.len() && (j >= r.len() || l[i] <= r[j])
}

/// How far the merge of `l` and `r` has moved into each run once it has
/// produced `k` elements.
pub open spec fn merge_cursor(l: Seq<isize>, r: Seq<isize>, k: nat) -> (int, int)
    decreases k,
{
    if k == 0 {
        (0, 0)
    } else {
        let at = merge_cursor(l, r, (k - 1) as nat);
        if takes_left(l, r, at.0, at.1) {
            (at.0 + 1, at.1)
        } else {
            (at.0, at.1 + 1)
        }
    }
}

/// The element that the merge of `l` and `r` puts at position `k`.
pub open spec fn merge_pick(l: Seq<isize>, r: Seq<isize>, k: nat) -> isize {
    let at = merge_cursor(l, r, k);
    if takes_left(l, r, at.0, at.1) {
        l[at.0]
    } else {
        r[at.1]
    }
}

/// The stable merge of `l` and `r`.
pub open spec fn merged(l: Seq<isize>, r: Seq<isize>) -> Seq<isize> {
    Seq::new(l.len() + r.len(), |k: int| merge_pick(l, r, k as nat))
}

/// `a` with the inclusive range `[start, end]` replaced by the stable merge
/// of `[start, mid]` and `[mid + 1, end]`.
pub open spec fn merge_range(a: Seq<isize>, start: int, mid: int, end: int) -> Seq<isize> {
    a.subrange(0, start) + merged(a.subrange(start, mid + 1), a.subrange(mid + 1, end + 1))
        + a.subrange(end + 1, a.len() as int)
}

/// Whether every index of `step` lies inside an array of length `len`.
pub open spec fn step_fits(step: Step, len: nat) -> bool {
    match step {
        Step::Compare(i, j) => i < len && j < len,
        Step::Swap(i, j) => i < len && j < len,
        Step::Merge(start, mid, end) => start <= mid && mid <= end && end < len,
    }
}

/// Whether every step of `t` fits an array of length `len`.
pub open spec fn all_fit(t: Seq<Step>, len: nat) -> bool {
    forall|k: int| 0 <= k < t.len() ==> step_fits(#[trigger] t[k], len)
}

/// The array after `step`. A comparison changes nothing, and neither does
/// a step that does not fit the array.
pub open spec fn apply_step(a: Seq<isize>, step: Step) -> Seq<isize> {
    if !step_fits(step, a.len()) {
        a
    } else {
        match step {
            Step::Compare(_, _) => a,
            Step::Swap(i, j) => swapped(a, i as int, j as int),
            Step::Merge(start, mid, end) => merge_range(a, start as int, mid as int, end as int),
        }
    }
}

/// The array after the steps of `t`, applied in order.
pub open spec fn replay(a: Seq<isize>, t: Seq<Step>) -> Seq<isize>
    decreases t.len(),
{
    if t.len() == 0 {
        a
    } else {
        apply_step(replay(a, t.drop_last()), t.last())
    }
}

/// The steps of `t` that change the array, in order: its swaps and merges.
pub open spec fn mutating(t: Seq<Step>) -> Seq<Step>
    decreases t.len(),
{
    if t.len() == 0 {
        t
    } else if t.last() is Compare {
        mutating(t.drop_last())
    } else {
        mutating(t.drop_last()).push(t.last())
    }
}

/// The number of `Swap` steps in `t`.
pub open spec fn swap_count(t: Seq<Step>) -> nat
    decreases t.len(),
{
    if t.len() == 0 {
        0
    } else {
        swap_count(t.drop_last()) + if t.last() is Swap { 1nat } else { 0nat }
    }
}

/// The number of `Compare` steps in `t`.
pub open spec fn compare_count(t: Seq<Step>) -> nat
    decreases t.len(),
{
    if t.len() == 0 {
        0
    } else {
        compare_count(t.drop_last()) + if t.last() is Compare { 1nat } else { 0nat }
    }
}

/// `1 + 2 + ... + k`.
pub open spec fn triangle(k: nat) -> nat
    decreases k,
{
    if k == 0 {
        0
    } else {
        k + triangle((k - 1) as nat)
    }
}

/// Whether every index of `step` lies inside an array of length `len`.
pub fn fits(step: Step, len: usize) -> (b: bool)
    ensures
        b == step_fits(step, len as nat),
{
    match step {
        Step::Compare(i, j) => i < len && j < len,
        Step::Swap(i, j) => i < len && j < len,
        Step::Merge(start, mid, end) => start <= mid && mid <= end && end < len,
    }
}

/// Exchanges the elements at `i` and `j`.
pub fn swap_at(arr: &mut [isize], i: usize, j: usize)
    requires
        i < old(arr)@.len(),
        j < old(arr)@.len(),
    ensures
        final(arr)@ == swapped(old(arr)@, i as int, j as int),
{
    let x = arr[i];
    let y = arr[j];
    arr[i] = y;
    arr[j] = x;
}

/// Replaces the inclusive range `[start, end]` of `arr` by the stable merge
/// of `[start, mid]` and `[mid + 1, end]`: the two runs are copied and
/// walked with one pointer each, and of two equal elements the one from
/// the left run is written first.
pub fn merge_at(arr: &mut [isize], start: usize, mid: usize, end: usize)
    requires
        start <= mid,
        mid <= end,
        end < old(arr)@.len(),
    ensures
        final(arr)@ == merge_range(old(arr)@, start as int, mid as int, end as int),
{
    let ghost base = arr@;
    let ghost n = arr.len();
    let left = slice_to_vec(slice_subrange(arr, start, mid + 1));
    let right = slice_to_vec(slice_subrange(arr, mid + 1, end + 1));
    let total = end - start + 1;
    let mut i: usize = 0;
    let mut j: usize = 0;
    let mut k: usize = 0;
    while k < total
        invariant
            start <= mid,
            mid <= end,
            end < n,
            n == base.len(),
            arr@.len() == base.len(),
            left@ == base.subrange(start as int, mid + 1),
            right@ == base.subrange(mid + 1, end + 1),
            total == end - start + 1,
            k <= total,
            merge_cursor(left@, right@, k as nat) == (i as int, j as int),
            forall|q: int| 0 <= q < k ==> arr@[start + q] == merged(left@, right@)[q],
            forall|q: int|
                0 <= q < base.len() && (q < start || q >= start + k) ==> arr@[q] == base[q],
        decreases total - k,
    {
        proof {
            lemma_merge_cursor(left@, right@, k as nat);
            assert(merge_cursor(left@, right@, (k + 1) as nat) == if takes_left(
                left@,
                right@,
                i as int,
                j as int,
            ) {
                (i + 1, j as int)
            } else {
                (i as int, j + 1)
            });
        }
        if i < left.len() && (j >= right.len() || left[i] <= right[j]) {
            arr[start + k] = left[i];
            i += 1;
        } else {
            arr[start + k] = right[j];
            j += 1;
        }
        k += 1;
    }
    proof {
        lemma_merge_range(base, start as int, mid as int, end as int);
        assert(arr@ =~= merge_range(base, start as int, mid as int, end as int));
    }
}

/// Applies `step` to `arr`: a swap exchanges two elements, a merge merges
/// two neighbouring runs, a comparison changes nothing.
pub fn apply(arr: &mut [isize], step: Step)
    requires
        step_fits(step, old(arr)@.len()),
    ensures
        final(arr)@ == apply_step(old(arr)@, step),
{
    match step {
        Step::Compare(_, _) => {},
        Step::Swap(i, j) => {
            swap_at(arr, i, j);
        },
        Step::Merge(start, mid, end) => {
            merge_at(arr, start, mid, end);
        },
    }
}

/// The cursor of a merge never leaves the two runs, and after `k` elements
/// it has consumed `k` in all.
pub proof fn lemma_merge_cursor(l: Seq<isize>, r: Seq<isize>, k: nat)
    requires
        k <= l.len() + r.len(),
    ensures
        0 <= merge_cursor(l, r, k).0 <= l.len(),
        0 <= merge_cursor(l, r, k).1 <= r.len(),
        merge_cursor(l, r, k).0 + merge_cursor(l, r, k).1 == k,
    decreases k,
{
    if k > 0 {
        lemma_merge_cursor(l, r, (k - 1) as nat);
    }
}

/// In a sequence whose neighbours are in order, an element does not
/// exceed a later one.
proof fn lemma_adjacent_reach(s: Seq<isize>, i: int, j: int)
    requires
        forall|k: int| 0 <= k && k + 1 < s.len() ==> s[k] <= #[trigger] s[k + 1],
        0 <= i <= j < s.len(),
    ensures
        s[i] <= s[j],
    decreases j - i,
{
    if i < j {
        lemma_adjacent_reach(s, i, j - 1);
        assert(s[j - 1] <= s[j - 1 + 1]);
    }
}

/// A sequence whose neighbours are in order is sorted.
pub proof fn lemma_adjacent_sorted(s: Seq<isize>)
    requires
        forall|k: int| 0 <= k && k + 1 < s.len() ==> s[k] <= #[trigger] s[k + 1],
    ensures
        sorted(s),
{
    assert forall|i: int, j: int| 0 <= i <= j < s.len() implies s[i] <= s[j] by {
        lemma_adjacent_reach(s, i, j);
    }
}

/// Merging two sorted runs gives a sorted run.
pub proof fn lemma_merged_sorted(l: Seq<isize>, r: Seq<isize>)
    requires
        sorted(l),
        sorted(r),
    ensures
        sorted(merged(l, r)),
{
    let m = merged(l, r);
    assert forall|k: int| 0 <= k && k + 1 < m.len() implies m[k] <= #[trigger] m[k + 1] by {
        lemma_merge_cursor(l, r, k as nat);
        lemma_merge_cursor(l, r, (k + 1) as nat);
        assert(merge_cursor(l, r, (k + 1) as nat) == {
            let at = merge_cursor(l, r, k as nat);
            if takes_left(l, r, at.0, at.1) {
                (at.0 + 1, at.1)
            } else {
                (at.0, at.1 + 1)
            }
        });
    }
    lemma_adjacent_sorted(m);
}

/// The first `k` elements of a merge are exactly what the cursor has
/// consumed from the two runs.
proof fn lemma_merged_prefix(l: Seq<isize>, r: Seq<isize>, k: nat)
    requires
        k <= l.len() + r.len(),
    ensures
        merged(l, r).take(k as int).to_multiset() == l.take(
            merge_cursor(l, r, k).0,
        ).to_multiset().add(r.take(merge_cursor(l, r, k).1).to_multiset()),
    decreases k,
{
    broadcast use vstd::seq_lib::group_to_multiset_ensures;
    let m = merged(l, r);
    if k == 0 {
        assert(m.take(0) =~= Seq::<isize>::empty());
        assert(l.take(0) =~= Seq::<isize>::empty());
        assert(r.take(0) =~= Seq::<isize>::empty());
        assert(Seq::<isize>::empty().to_multiset() =~= Multiset::<isize>::empty());
        assert(Multiset::<isize>::empty().add(Multiset::<isize>::empty()) =~= Multiset::<
            isize,
        >::empty());
    } else {
        let p = (k - 1) as nat;
        lemma_merged_prefix(l, r, p);
        lemma_merge_cursor(l, r, p);
        let at = merge_cursor(l, r, p);
        assert(m.take(k as int) =~= m.take(p as int).push(m[p as int]));
        if takes_left(l, r, at.0, at.1) {
            assert(l.take(at.0 + 1) =~= l.take(at.0).push(l[at.0]));
            assert(m.take(k as int).to_multiset() =~= l.take(at.0 + 1).to_multiset().add(
                r.take(at.1).to_multiset(),
            ));
        } else {
            assert(r.take(at.1 + 1) =~= r.take(at.1).push(r[at.1]));
            assert(m.take(k as int).to_multiset() =~= l.take(at.0).to_multiset().add(
                r.take(at.1 + 1).to_multiset(),
            ));
        }
    }
}

/// A merge holds exactly the elements of its two runs.
pub proof fn lemma_merged_permutes(l: Seq<isize>, r: Seq<isize>)
    ensures
        merged(l, r).to_multiset() == l.to_multiset().add(r.to_multiset()),
{
    let n = l.len() + r.len();
    lemma_merged_prefix(l, r, n);
    lemma_merge_cursor(l, r, n);
    assert(merged(l, r).take(n as int) =~= merged(l, r));
    assert(l.take(l.len() as int) =~= l);
    assert(r.take(r.len() as int) =~= r);
}

/// Merging inside an array keeps its length and its elements, and leaves
/// everything outside the range where it was.
pub proof fn lemma_merge_range(a: Seq<isize>, start: int, mid: int, end: int)
    requires
        0 <= start <= mid <= end < a.len(),
    ensures
        merge_range(a, start, mid, end).len() == a.len(),
        merge_range(a, start, mid, end).to_multiset() == a.to_multiset(),
        forall|k: int|
            0 <= k < a.len() && (k < start || k > end) ==> merge_range(a, start, mid, end)[k]
                == a[k],
        forall|k: int|
            start <= k <= end ==> merge_range(a, start, mid, end)[k] == merged(
                a.subrange(start, mid + 1),
                a.subrange(mid + 1, end + 1),
            )[k - start],
{
    let l = a.subrange(start, mid + 1);
    let r = a.subrange(mid + 1, end + 1);
    let head = a.subrange(0, start);
    let tail = a.subrange(end + 1, a.len() as int);
    lemma_merged_permutes(l, r);
    vstd::seq_lib::lemma_multiset_commutative(head, merged(l, r));
    vstd::seq_lib::lemma_multiset_commutative(head + merged(l, r), tail);
    vstd::seq_lib::lemma_multiset_commutative(l, r);
    vstd::seq_lib::lemma_multiset_commutative(head, l + r);
    vstd::seq_lib::lemma_multiset_commutative(head + (l + r), tail);
    assert(head + (l + r) + tail =~= a);
}

/// Comparisons change nothing: replaying only the swaps and merges of a
/// trace gives what replaying all of it gives.
pub proof fn lemma_replay_mutating(a: Seq<isize>, t: Seq<Step>)
    ensures
        replay(a, mutating(t)) == replay(a, t),
    decreases t.len(),
{
    if t.len() > 0 {
        lemma_replay_mutating(a, t.drop_last());
        if !(t.last() is Compare) {
            assert(mutating(t).drop_last() =~= mutating(t.drop_last()));
        }
    }
}

/// One more step counts once, under its own kind.
pub proof fn lemma_count_push(t: Seq<Step>, step: Step)
    ensures
        swap_count(t.push(step)) == swap_count(t) + if step is Swap {
            1nat
        } else {
            0nat
        },
        compare_count(t.push(step)) == compare_count(t) + if step is Compare {
            1nat
        } else {
            0nat
        },
{
    assert(t.push(step).drop_last() =~= t);
}

} // verus!
