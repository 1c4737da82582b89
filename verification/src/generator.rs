//! The trace generator: the algorithms by name, the trace that each gives
//! for an array, and the laws that hold of every such trace.
use crate::algorithms::{
    bubble_sort, heap_sort, insertion_sort, merge_sort, quick_sort, selection_sort,
};
use crate::bubble::{bubble_run, lemma_bubble_counts, lemma_bubble_passes};
use crate::heap::{heap_run, lemma_heap_run};
use crate::insertion::{insertion_run, lemma_insertion_passes, lemma_insertion_sorted_counts};
use crate::merging::{lemma_merge_sort_run, merge_sort_run};
use crate::quick::{lemma_quick_range, quick_run};
use crate::run::{added, extends, lemma_extends_self, run, Run};
use crate::selection::{lemma_selection_counts, lemma_selection_passes, selection_run};
use crate::trace::{
    all_fit, compare_count, lemma_replay_mutating, mutating, replay, sorted, swap_count,
    triangle, Step,
};
use std::collections::VecDeque;
use vstd::prelude::*;
use vstd::slice::slice_to_vec;

verus! {

/// The algorithms that can be traced.
#[derive(Clone, Copy, Debug, PartialEq, Eq, Structural)]
pub enum AlgorithmKind {
    Bubble,
    Selection,
    Insertion,
    Merge,
    Quick,
    Heap,
}

/// The algorithm at place `index` of the list they are chosen from.
pub open spec fn kind_at(index: usize) -> Option<AlgorithmKind> {
    if index == 0 {
        Some(AlgorithmKind::Bubble)
    } else if index == 1 {
        Some(AlgorithmKind::Selection)
    } else if index == 2 {
        Some(AlgorithmKind::Insertion)
    } else if index == 3 {
        Some(AlgorithmKind::Merge)
    } else if index == 4 {
        Some(AlgorithmKind::Quick)
    } else if index == 5 {
        Some(AlgorithmKind::Heap)
    } else {
        None
    }
}

impl AlgorithmKind {
    /// The algorithm at place `index` of the list they are chosen from, if
    /// there is one.
    pub fn from_index(index: usize) -> (kind: Option<AlgorithmKind>)
        ensures
            kind == kind_at(index),
    {
        match index {
            0 => Some(AlgorithmKind::Bubble),
            1 => Some(AlgorithmKind::Selection),
            2 => Some(AlgorithmKind::Insertion),
            3 => Some(AlgorithmKind::Merge),
            4 => Some(AlgorithmKind::Quick),
            5 => Some(AlgorithmKind::Heap),
            _ => None,
        }
    }
}

/// The run that the algorithm `kind` leaves when it starts from `r`.
/// Merge sort takes the whole array as its range.
pub open spec fn sort_run(kind: AlgorithmKind, r: Run) -> Run {
    match kind {
        AlgorithmKind::Bubble => bubble_run(r),
        AlgorithmKind::Selection => selection_run(r),
        AlgorithmKind::Insertion => insertion_run(r),
        AlgorithmKind::Merge => if r.arr.len() < 2 {
            r
        } else {
            merge_sort_run(r, 0, r.arr.len() - 1)
        },
        AlgorithmKind::Quick => quick_run(r),
        AlgorithmKind::Heap => heap_run(r),
    }
}

/// The trace of sorting `a` with the algorithm `kind`.
pub open spec fn trace_of(kind: AlgorithmKind, a: Seq<isize>) -> Seq<Step> {
    sort_run(kind, run(a, Seq::empty())).trace
}

/// Every algorithm sorts, and its steps replay to its result: the run
/// that `kind` leaves continues the run it started from, and its array is
/// sorted.
pub proof fn lemma_sort_run(kind: AlgorithmKind, r: Run)
    requires
        r.arr.len() <= usize::MAX,
    ensures
        extends(r, sort_run(kind, r)),
        sorted(sort_run(kind, r).arr),
        r.arr.len() < 2 ==> sort_run(kind, r) == r,
{
    let n = r.arr.len() as int;
    match kind {
        AlgorithmKind::Bubble => {
            lemma_bubble_passes(r, 0, n);
        },
        AlgorithmKind::Selection => {
            lemma_selection_passes(r, 0, n);
        },
        AlgorithmKind::Insertion => {
            lemma_insertion_passes(r, 1, n);
        },
        AlgorithmKind::Merge => {
            if n >= 2 {
                lemma_merge_sort_run(r, 0, n - 1);
            } else {
                lemma_extends_self(r);
            }
        },
        AlgorithmKind::Quick => {
            lemma_quick_range(r, 0, n - 1, isize::MIN as int, isize::MAX as int);
        },
        AlgorithmKind::Heap => {
            lemma_heap_run(r);
        },
    }
}

/// For every array and every algorithm, replaying the trace of the sort
/// on the array gives the array sorted: a non-decreasing sequence of the
/// same elements. Every step of the trace fits the array, the
/// comparisons can be left out of the replay, and an array of fewer than
/// two elements has the empty trace.
pub proof fn lemma_trace_sorts(kind: AlgorithmKind, a: Seq<isize>)
    requires
        a.len() <= usize::MAX,
    ensures
        all_fit(trace_of(kind, a), a.len()),
        sorted(replay(a, trace_of(kind, a))),
        replay(a, trace_of(kind, a)).to_multiset() == a.to_multiset(),
        replay(a, mutating(trace_of(kind, a))) == replay(a, trace_of(kind, a)),
        a.len() < 2 ==> trace_of(kind, a).len() == 0,
{
    let from = run(a, Seq::<Step>::empty());
    lemma_sort_run(kind, from);
    assert(added(from, sort_run(kind, from)) =~= trace_of(kind, a));
    lemma_replay_mutating(a, trace_of(kind, a));
}

/// Bubble, selection and insertion sort never swap on a sorted array:
/// their traces then hold comparisons only.
pub proof fn lemma_sorted_never_swapped(kind: AlgorithmKind, a: Seq<isize>)
    requires
        a.len() <= usize::MAX,
        sorted(a),
        kind is Bubble || kind is Selection || kind is Insertion,
    ensures
        swap_count(trace_of(kind, a)) == 0,
{
    let from = run(a, Seq::<Step>::empty());
    let n = a.len() as int;
    if n >= 1 {
        match kind {
            AlgorithmKind::Bubble => {
                lemma_bubble_counts(from, 0, n);
            },
            AlgorithmKind::Selection => {
                lemma_selection_counts(from, 0, n);
            },
            _ => {
                lemma_insertion_sorted_counts(from, 1, n);
            },
        }
    }
}

/// The number of comparisons of bubble sort and of selection sort depends
/// on the length of the array alone: `1 + 2 + ... + (len - 1)` for bubble
/// sort, `2 + 3 + ... + len` for selection sort. Insertion sort, whose
/// walks end early, makes `len - 1` comparisons on a sorted array.
pub proof fn lemma_compare_counts(a: Seq<isize>)
    requires
        1 <= a.len() <= usize::MAX,
    ensures
        compare_count(trace_of(AlgorithmKind::Bubble, a)) == triangle((a.len() - 1) as nat),
        compare_count(trace_of(AlgorithmKind::Selection, a)) == triangle(a.len()) - 1,
        sorted(a) ==> compare_count(trace_of(AlgorithmKind::Insertion, a)) == a.len() - 1,
{
    let from = run(a, Seq::<Step>::empty());
    let n = a.len() as int;
    lemma_bubble_counts(from, 0, n);
    lemma_selection_counts(from, 0, n);
    if sorted(a) {
        lemma_insertion_sorted_counts(from, 1, n);
    }
}

/// Sorts a copy of `array` with the algorithm `kind` and returns the trace
/// of its steps; `array` itself is only read.
///
/// The trace is a function of `kind` and of the contents of `array`
/// alone, so the same input always gives the same trace. Every step fits
/// the array. Replaying the trace on the array, or its swaps and merges
/// alone, sorts the array and keeps its elements. An array of fewer than
/// two elements gives the empty trace.
pub fn generate(kind: AlgorithmKind, array: &[isize]) -> (trace: VecDeque<Step>)
    ensures
        trace@ == trace_of(kind, array@),
        all_fit(trace@, array@.len()),
        sorted(replay(array@, trace@)),
        replay(array@, trace@).to_multiset() == array@.to_multiset(),
        replay(array@, mutating(trace@)) == replay(array@, trace@),
        array@.len() < 2 ==> trace@.len() == 0,
{
    let mut scratch = slice_to_vec(array);
    let mut steps: VecDeque<Step> = VecDeque::new();
    let n = scratch.len();
    proof {
        lemma_trace_sorts(kind, array@);
    }
    match kind {
        AlgorithmKind::Bubble => bubble_sort(scratch.as_mut_slice(), &mut steps),
        AlgorithmKind::Selection => selection_sort(scratch.as_mut_slice(), &mut steps),
        AlgorithmKind::Insertion => insertion_sort(scratch.as_mut_slice(), &mut steps),
        AlgorithmKind::Merge => {
            if n >= 2 {
                merge_sort(scratch.as_mut_slice(), 0, n - 1, &mut steps);
            }
        },
        AlgorithmKind::Quick => quick_sort(scratch.as_mut_slice(), &mut steps),
        AlgorithmKind::Heap => heap_sort(scratch.as_mut_slice(), &mut steps),
    }
    steps
}

} // verus!
