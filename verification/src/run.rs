//! The state of a sort in progress: the array as it stands and the trace
//! written so far, with the laws that tie the two together.
use crate::trace::{
    all_fit, apply_step, compare_count, lemma_count_push, lemma_merge_range, replay, step_fits,
    swap_count, swapped, Step,
};
use vstd::prelude::*;

verus! {

/// An array together with the trace of the steps that were taken on it.
pub struct Run {
    pub arr: Seq<isize>,
    pub trace: Seq<Step>,
}

/// The run that stands at array `arr` with trace `trace`.
pub open spec fn run(arr: Seq<isize>, trace: Seq<Step>) -> Run {
    Run { arr, trace }
}

impl Run {
    /// Records a comparison of the elements at `i` and `j`.
    pub open spec fn compare(self, i: int, j: int) -> Run {
        Run { arr: self.arr, trace: self.trace.push(Step::Compare(i as usize, j as usize)) }
    }

    /// Exchanges the elements at `i` and `j` and records the swap.
    pub open spec fn swap(self, i: int, j: int) -> Run {
        Run {
            arr: swapped(self.arr, i, j),
            trace: self.trace.push(Step::Swap(i as usize, j as usize)),
        }
    }

    /// Records a comparison of the elements at `i` and `j`, and swaps them
    /// if the first is the greater.
    pub open spec fn compare_swap(self, i: int, j: int) -> Run {
        if self.arr[i] > self.arr[j] {
            self.compare(i, j).swap(i, j)
        } else {
            self.compare(i, j)
        }
    }
}

/// The steps that `to` has recorded beyond those of `from`.
pub open spec fn added(from: Run, to: Run) -> Seq<Step> {
    to.trace.subrange(from.trace.len() as int, to.trace.len() as int)
}

/// `to` continues `from`: it keeps the steps of `from` and adds steps that
/// fit the array, the added steps replayed on the array of `from` give the
/// array of `to`, and both arrays hold the same elements.
pub open spec fn extends(from: Run, to: Run) -> bool {
    &&& to.arr.len() == from.arr.len()
    &&& from.trace.len() <= to.trace.len()
    &&& to.trace.subrange(0, from.trace.len() as int) == from.trace
    &&& all_fit(added(from, to), from.arr.len())
    &&& replay(from.arr, added(from, to)) == to.arr
    &&& to.arr.to_multiset() == from.arr.to_multiset()
}

/// Replaying `t` and then `u` is replaying `t + u`.
pub proof fn lemma_replay_concat(a: Seq<isize>, t: Seq<Step>, u: Seq<Step>)
    ensures
        replay(a, t + u) == replay(replay(a, t), u),
    decreases u.len(),
{
    if u.len() == 0 {
        assert(t + u =~= t);
    } else {
        lemma_replay_concat(a, t, u.drop_last());
        assert((t + u).drop_last() =~= t + u.drop_last());
        assert((t + u).last() == u.last());
    }
}

/// Replaying keeps the length of the array.
pub proof fn lemma_replay_len(a: Seq<isize>, t: Seq<Step>)
    ensures
        replay(a, t).len() == a.len(),
    decreases t.len(),
{
    if t.len() > 0 {
        lemma_replay_len(a, t.drop_last());
        let b = replay(a, t.drop_last());
        match t.last() {
            Step::Merge(start, mid, end) => {
                if step_fits(t.last(), b.len()) {
                    lemma_merge_range(b, start as int, mid as int, end as int);
                }
            },
            _ => {},
        }
    }
}

/// Exchanging two elements keeps the elements of the array.
pub proof fn lemma_swapped_permutes(a: Seq<isize>, i: int, j: int)
    requires
        0 <= i < a.len(),
        0 <= j < a.len(),
    ensures
        swapped(a, i, j).to_multiset() == a.to_multiset(),
{
    broadcast use vstd::seq_lib::group_to_multiset_ensures;
    broadcast use vstd::multiset::group_multiset_axioms;
    let b = a.update(i, a[j]);
    assert(b.to_multiset() == a.to_multiset().insert(a[j]).remove(a[i]));
    assert(b.update(j, a[i]).to_multiset() == b.to_multiset().insert(a[i]).remove(b[j]));
    assert(a.to_multiset().count(a[i]) > 0);
    assert(a.to_multiset().count(a[j]) > 0);
    assert(swapped(a, i, j).to_multiset() =~= a.to_multiset());
}

/// A run continues itself.
pub proof fn lemma_extends_self(r: Run)
    ensures
        extends(r, r),
{
    assert(r.trace.subrange(0, r.trace.len() as int) =~= r.trace);
    assert(added(r, r) =~= Seq::<Step>::empty());
}

/// One more step that fits the array, taken where `to` stands, continues
/// the run from `from`.
pub proof fn lemma_extends_step(from: Run, to: Run, step: Step)
    requires
        extends(from, to),
        step_fits(step, to.arr.len()),
    ensures
        extends(from, run(apply_step(to.arr, step), to.trace.push(step))),
        added(from, run(apply_step(to.arr, step), to.trace.push(step))) == added(from, to).push(
            step,
        ),
{
    broadcast use vstd::seq_lib::group_to_multiset_ensures;
    let next = run(apply_step(to.arr, step), to.trace.push(step));
    assert(next.trace.subrange(0, from.trace.len() as int) =~= to.trace.subrange(
        0,
        from.trace.len() as int,
    ));
    assert(added(from, next) =~= added(from, to).push(step));
    assert(added(from, next).drop_last() =~= added(from, to));
    match step {
        Step::Compare(_, _) => {},
        Step::Swap(i, j) => {
            let a = to.arr;
            lemma_swapped_permutes(a, i as int, j as int);
        },
        Step::Merge(start, mid, end) => {
            lemma_merge_range(to.arr, start as int, mid as int, end as int);
        },
    }
}

/// Continuing a continuation continues the run.
pub proof fn lemma_extends_chain(from: Run, via: Run, to: Run)
    requires
        extends(from, via),
        extends(via, to),
    ensures
        extends(from, to),
        added(from, to) == added(from, via) + added(via, to),
{
    assert(added(from, to) =~= added(from, via) + added(via, to));
    assert(to.trace.subrange(0, from.trace.len() as int) =~= via.trace.subrange(
        0,
        from.trace.len() as int,
    )) by {
        assert(to.trace.subrange(0, via.trace.len() as int) == via.trace);
    }
    lemma_replay_concat(from.arr, added(from, via), added(via, to));
}

/// A recorded comparison continues the run.
pub proof fn lemma_compare(r: Run, i: int, j: int)
    requires
        0 <= i < r.arr.len() <= usize::MAX,
        0 <= j < r.arr.len(),
    ensures
        extends(r, r.compare(i, j)),
{
    lemma_extends_self(r);
    lemma_extends_step(r, r, Step::Compare(i as usize, j as usize));
}

/// A recorded swap continues the run.
pub proof fn lemma_swap(r: Run, i: int, j: int)
    requires
        0 <= i < r.arr.len() <= usize::MAX,
        0 <= j < r.arr.len(),
    ensures
        extends(r, r.swap(i, j)),
{
    lemma_extends_self(r);
    lemma_extends_step(r, r, Step::Swap(i as usize, j as usize));
}

/// A comparison with the swap that may follow it continues the run. It
/// counts as one comparison, and as one swap if the elements were out of
/// order; if they were not, the array stays as it is.
pub proof fn lemma_compare_swap(r: Run, i: int, j: int)
    requires
        0 <= i < r.arr.len() <= usize::MAX,
        0 <= j < r.arr.len(),
    ensures
        extends(r, r.compare_swap(i, j)),
        compare_count(r.compare_swap(i, j).trace) == compare_count(r.trace) + 1,
        swap_count(r.compare_swap(i, j).trace) == swap_count(r.trace) + if r.arr[i] > r.arr[j] {
            1nat
        } else {
            0nat
        },
        r.arr[i] <= r.arr[j] ==> r.compare_swap(i, j).arr == r.arr,
{
    lemma_compare(r, i, j);
    lemma_count_push(r.trace, Step::Compare(i as usize, j as usize));
    if r.arr[i] > r.arr[j] {
        lemma_swap(r.compare(i, j), i, j);
        lemma_extends_chain(r, r.compare(i, j), r.compare(i, j).swap(i, j));
        lemma_count_push(r.compare(i, j).trace, Step::Swap(i as usize, j as usize));
    }
}

} // verus!
