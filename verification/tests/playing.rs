use sorting_visualizer::generator::{generate, AlgorithmKind};
use sorting_visualizer::playback::{Playback, PlaybackError};
use sorting_visualizer::shuffle::shuffle_vec;
use sorting_visualizer::trace::Step::{Compare, Merge, Swap};
use sorting_visualizer::trace::{apply, fits, merge_at, swap_at, Step};
use std::collections::VecDeque;

fn deque(steps: &[Step]) -> VecDeque<Step> {
    steps.iter().copied().collect()
}

#[test]
fn swap_at_exchanges_two_elements() {
    let mut arr = vec![1, 2, 3];
    swap_at(&mut arr, 0, 2);
    assert_eq!(arr, vec![3, 2, 1]);
    swap_at(&mut arr, 1, 1);
    assert_eq!(arr, vec![3, 2, 1]);
}

#[test]
fn merge_at_merges_neighbouring_runs() {
    let mut arr = vec![1, 4, 2, 3];
    merge_at(&mut arr, 0, 1, 3);
    assert_eq!(arr, vec![1, 2, 3, 4]);
    let mut arr = vec![7, 3, 5, 1, 2, 0];
    merge_at(&mut arr, 1, 2, 4);
    assert_eq!(arr, vec![7, 1, 2, 3, 5, 0]);
    let mut arr = vec![isize::MAX, 5, isize::MAX, isize::MAX];
    merge_at(&mut arr, 0, 0, 3);
    assert_eq!(arr, vec![5, isize::MAX, isize::MAX, isize::MAX]);
}

#[test]
fn fits_checks_every_index() {
    assert!(fits(Compare(0, 2), 3));
    assert!(!fits(Compare(0, 3), 3));
    assert!(!fits(Compare(3, 0), 3));
    assert!(fits(Swap(2, 2), 3));
    assert!(!fits(Swap(0, 0), 0));
    assert!(fits(Merge(0, 1, 2), 3));
    assert!(fits(Merge(1, 1, 1), 3));
    assert!(!fits(Merge(1, 0, 2), 3));
    assert!(!fits(Merge(0, 2, 1), 3));
    assert!(!fits(Merge(0, 1, 3), 3));
}

#[test]
fn apply_changes_nothing_on_compare() {
    let mut arr = vec![3, 1, 2];
    apply(&mut arr, Compare(0, 1));
    assert_eq!(arr, vec![3, 1, 2]);
    apply(&mut arr, Swap(0, 1));
    assert_eq!(arr, vec![1, 3, 2]);
    apply(&mut arr, Merge(0, 1, 2));
    assert_eq!(arr, vec![1, 2, 3]);
}

#[test]
fn advance_plays_up_to_n_steps() {
    let mut playback = Playback::start(AlgorithmKind::Bubble, vec![3, 1, 2]);
    assert_eq!(playback.remaining(), 5);
    assert!(!playback.is_done());
    let shown = playback.advance(1).unwrap();
    assert_eq!(shown.compared, vec![0, 1]);
    assert!(shown.swapped.is_empty());
    assert!(!shown.done);
    assert_eq!(playback.array(), &vec![3, 1, 2]);
    let shown = playback.advance(1).unwrap();
    assert!(shown.compared.is_empty());
    assert_eq!(shown.swapped, vec![0, 1]);
    assert_eq!(playback.array(), &vec![1, 3, 2]);
    let shown = playback.advance(2).unwrap();
    assert_eq!(shown.swapped, vec![1, 2]);
    assert!(shown.compared.is_empty());
    assert!(!shown.done);
    assert_eq!(playback.array(), &vec![1, 2, 3]);
    assert_eq!(playback.remaining(), 1);
    let shown = playback.advance(10).unwrap();
    assert_eq!(shown.compared, vec![0, 1]);
    assert!(shown.done);
    assert!(playback.is_done());
    assert_eq!(playback.array(), &vec![1, 2, 3]);
}

#[test]
fn merge_step_shows_no_index() {
    let mut playback = Playback::new(vec![2, 1], deque(&[Compare(0, 1), Merge(0, 0, 1)]));
    let shown = playback.advance(2).unwrap();
    assert!(shown.compared.is_empty());
    assert!(shown.swapped.is_empty());
    assert!(shown.done);
    assert_eq!(playback.array(), &vec![1, 2]);
}

#[test]
fn advance_by_zero_is_a_no_op() {
    let mut playback = Playback::start(AlgorithmKind::Selection, vec![2, 1]);
    let shown = playback.advance(0).unwrap();
    assert!(!shown.done);
    assert!(shown.compared.is_empty());
    assert!(shown.swapped.is_empty());
    assert_eq!(playback.remaining(), 3);
    assert_eq!(playback.array(), &vec![2, 1]);
}

#[test]
fn advance_on_empty_trace_is_done_at_once() {
    let mut playback = Playback::new(vec![2, 1], VecDeque::new());
    assert!(playback.is_done());
    let shown = playback.advance(3).unwrap();
    assert!(shown.done);
    assert_eq!(playback.array(), &vec![2, 1]);
    let shown = playback.advance(0).unwrap();
    assert!(shown.done);
}

#[test]
fn one_by_one_equals_all_at_once() {
    let kinds = [
        AlgorithmKind::Bubble,
        AlgorithmKind::Selection,
        AlgorithmKind::Insertion,
        AlgorithmKind::Merge,
        AlgorithmKind::Quick,
        AlgorithmKind::Heap,
    ];
    let input: Vec<isize> = vec![6, -2, 9, 0, 3, 3, -8, 1];
    for kind in kinds {
        let total = generate(kind, &input).len();
        for k in 0..=total + 1 {
            let mut singly = Playback::start(kind, input.clone());
            for _ in 0..k {
                singly.advance(1).unwrap();
            }
            let mut at_once = Playback::start(kind, input.clone());
            at_once.advance(k).unwrap();
            assert_eq!(singly.array(), at_once.array());
            assert_eq!(singly.remaining(), at_once.remaining());
        }
    }
}

#[test]
fn playing_to_the_end_sorts() {
    let input: Vec<isize> = vec![6, -2, 9, 0, 3, 3, -8, 1];
    let mut playback = Playback::start(AlgorithmKind::Merge, input.clone());
    let shown = playback.advance(usize::MAX).unwrap();
    assert!(shown.done);
    assert_eq!(playback.array(), &vec![-8, -2, 0, 1, 3, 3, 6, 9]);
}

#[test]
fn advancing_when_done_changes_nothing() {
    let mut playback = Playback::start(AlgorithmKind::Quick, vec![2, 3, 1]);
    let total = playback.remaining();
    let shown = playback.advance(total).unwrap();
    assert!(shown.done);
    let sorted = playback.array().clone();
    assert_eq!(sorted, vec![1, 2, 3]);
    for n in [0, 1, 5] {
        let shown = playback.advance(n).unwrap();
        assert!(shown.done);
        assert!(shown.compared.is_empty());
        assert!(shown.swapped.is_empty());
        assert_eq!(playback.array(), &sorted);
        assert_eq!(playback.remaining(), 0);
    }
}

#[test]
fn step_outside_the_array_invalidates() {
    let mut playback = Playback::new(vec![2, 1], deque(&[Swap(0, 1), Swap(0, 5), Swap(0, 1)]));
    assert_eq!(playback.advance(3).err(), Some(PlaybackError::Invalidated));
    assert_eq!(playback.array(), &vec![1, 2]);
    assert_eq!(playback.remaining(), 2);
    assert_eq!(playback.advance(1).err(), Some(PlaybackError::Invalidated));
    assert_eq!(playback.array(), &vec![1, 2]);
    assert!(playback.advance(0).is_ok());
    playback.reset();
    assert!(playback.is_done());
    assert!(playback.advance(1).unwrap().done);
    assert_eq!(playback.array(), &vec![1, 2]);
}

#[test]
fn advance_stops_short_of_a_bad_step_without_error() {
    let mut playback = Playback::new(vec![2, 1], deque(&[Swap(0, 1), Merge(1, 0, 1)]));
    let shown = playback.advance(1).unwrap();
    assert!(!shown.done);
    assert_eq!(shown.swapped, vec![0, 1]);
    assert_eq!(playback.advance(1).err(), Some(PlaybackError::Invalidated));
}

#[test]
fn stale_trace_after_shrinking_the_array() {
    let trace = generate(AlgorithmKind::Bubble, &[4, 3, 2, 1]);
    let mut playback = Playback::new(vec![2, 1], trace);
    assert_eq!(playback.advance(100).err(), Some(PlaybackError::Invalidated));
    assert_eq!(playback.array(), &vec![1, 2]);
}

#[test]
fn set_array_discards_the_trace() {
    let mut playback = Playback::start(AlgorithmKind::Heap, vec![3, 1, 2]);
    assert!(!playback.is_done());
    playback.set_array(vec![9, 8]);
    assert!(playback.is_done());
    assert_eq!(playback.array(), &vec![9, 8]);
    assert!(playback.advance(4).unwrap().done);
    assert_eq!(playback.array(), &vec![9, 8]);
}

#[test]
fn reset_keeps_the_array_as_it_stands() {
    let mut playback = Playback::start(AlgorithmKind::Bubble, vec![3, 1, 2]);
    playback.advance(2).unwrap();
    playback.reset();
    assert!(playback.is_done());
    assert_eq!(playback.remaining(), 0);
    assert_eq!(playback.array(), &vec![1, 3, 2]);
}

#[test]
fn shuffle_keeps_the_elements() {
    let before: Vec<isize> = (1..=64).collect();
    let mut arr = before.clone();
    shuffle_vec(&mut arr);
    assert_ne!(arr, before);
    let mut back = arr.clone();
    back.sort();
    assert_eq!(back, before);
    let mut none: Vec<isize> = vec![];
    shuffle_vec(&mut none);
    assert!(none.is_empty());
}
