use sorting_visualizer::algorithms::{
    bubble_sort, heap_sort, heapify, insertion_sort, merge, merge_sort, partition, quick_sort,
    selection_sort,
};
use sorting_visualizer::generator::{generate, AlgorithmKind};
use sorting_visualizer::trace::Step;
use sorting_visualizer::trace::Step::{Compare, Merge, Swap};
use std::collections::VecDeque;

fn replayed(input: &[isize], trace: &[Step]) -> Vec<isize> {
    let mut arr = input.to_vec();
    for step in trace {
        sorting_visualizer::trace::apply(&mut arr, *step);
    }
    arr
}

fn collected(steps: &VecDeque<Step>) -> Vec<Step> {
    steps.iter().copied().collect()
}

fn swaps(trace: &[Step]) -> usize {
    trace.iter().filter(|s| matches!(s, Swap(_, _))).count()
}

fn compares(trace: &[Step]) -> usize {
    trace.iter().filter(|s| matches!(s, Compare(_, _))).count()
}

fn all_kinds() -> Vec<AlgorithmKind> {
    vec![
        AlgorithmKind::Bubble,
        AlgorithmKind::Selection,
        AlgorithmKind::Insertion,
        AlgorithmKind::Merge,
        AlgorithmKind::Quick,
        AlgorithmKind::Heap,
    ]
}

fn samples() -> Vec<Vec<isize>> {
    vec![
        vec![],
        vec![7],
        vec![2, 1],
        vec![1, 2],
        vec![3, 1, 2],
        vec![5, 4, 3, 2, 1],
        vec![1, 2, 3, 4, 5, 6],
        vec![4, 4, 4, 4],
        vec![0, -3, 9, -3, 2, 2, 8, -7, 5],
        vec![isize::MAX, 0, isize::MIN, isize::MAX, -1, 1, isize::MIN],
        vec![10, 3, 7, 1, 9, 2, 8, 4, 6, 5, 0, 11, 15, 13, 12, 14, 16],
    ]
}

#[test]
fn bubble_sort_trace_of_three() {
    let mut arr = vec![3, 1, 2];
    let mut steps = VecDeque::new();
    bubble_sort(&mut arr, &mut steps);
    assert_eq!(
        collected(&steps),
        vec![Compare(0, 1), Swap(0, 1), Compare(1, 2), Swap(1, 2), Compare(0, 1)]
    );
    assert_eq!(arr, vec![1, 2, 3]);
    assert_eq!(replayed(&[3, 1, 2], &collected(&steps)), vec![1, 2, 3]);
}

#[test]
fn selection_sort_compares_slot_with_itself_first() {
    let mut arr = vec![2, 1];
    let mut steps = VecDeque::new();
    selection_sort(&mut arr, &mut steps);
    assert_eq!(collected(&steps), vec![Compare(0, 0), Compare(0, 1), Swap(0, 1)]);
    assert_eq!(arr, vec![1, 2]);
}

#[test]
fn selection_sort_swaps_into_the_running_slot() {
    let mut arr = vec![3, 2, 1];
    let mut steps = VecDeque::new();
    selection_sort(&mut arr, &mut steps);
    assert_eq!(
        collected(&steps),
        vec![
            Compare(0, 0),
            Compare(0, 1),
            Swap(0, 1),
            Compare(0, 2),
            Swap(0, 2),
            Compare(1, 1),
            Compare(1, 2),
            Swap(1, 2),
        ]
    );
    assert_eq!(arr, vec![1, 2, 3]);
}

#[test]
fn insertion_sort_stops_walk_at_first_ordered_pair() {
    let mut arr = vec![2, 1, 3];
    let mut steps = VecDeque::new();
    insertion_sort(&mut arr, &mut steps);
    assert_eq!(collected(&steps), vec![Compare(0, 1), Swap(0, 1), Compare(1, 2)]);
    assert_eq!(arr, vec![1, 2, 3]);
}

#[test]
fn insertion_sort_walks_to_the_front() {
    let mut arr = vec![2, 3, 1];
    let mut steps = VecDeque::new();
    insertion_sort(&mut arr, &mut steps);
    assert_eq!(
        collected(&steps),
        vec![Compare(0, 1), Compare(1, 2), Swap(1, 2), Compare(0, 1), Swap(0, 1)]
    );
    assert_eq!(arr, vec![1, 2, 3]);
}

#[test]
fn merge_records_one_compare_per_element_then_the_merge() {
    let mut arr = vec![2, 1];
    let mut steps = VecDeque::new();
    merge(&mut arr, 0, 0, 1, &mut steps);
    assert_eq!(collected(&steps), vec![Compare(0, 0), Compare(0, 1), Merge(0, 0, 1)]);
    assert_eq!(arr, vec![1, 2]);
}

#[test]
fn merge_of_two_runs_inside_an_array() {
    let mut arr = vec![9, 1, 4, 6, 2, 3, 5, 0];
    let mut steps = VecDeque::new();
    merge(&mut arr, 1, 3, 6, &mut steps);
    assert_eq!(arr, vec![9, 1, 2, 3, 4, 5, 6, 0]);
    assert_eq!(
        collected(&steps),
        vec![
            Compare(1, 3),
            Compare(2, 3),
            Compare(2, 4),
            Compare(2, 5),
            Compare(3, 5),
            Compare(3, 6),
            Merge(1, 3, 6),
        ]
    );
}

#[test]
fn merge_with_empty_right_run_keeps_the_range() {
    let mut arr = vec![1, 2, 3];
    let mut steps = VecDeque::new();
    merge(&mut arr, 0, 2, 2, &mut steps);
    assert_eq!(arr, vec![1, 2, 3]);
    assert_eq!(
        collected(&steps),
        vec![Compare(0, 2), Compare(1, 2), Compare(2, 2), Merge(0, 2, 2)]
    );
}

#[test]
fn merge_takes_the_greatest_value_from_either_run() {
    let mut arr = vec![isize::MAX, isize::MAX, isize::MAX];
    let mut steps = VecDeque::new();
    merge(&mut arr, 0, 0, 2, &mut steps);
    assert_eq!(arr, vec![isize::MAX, isize::MAX, isize::MAX]);
    assert_eq!(
        collected(&steps),
        vec![Compare(0, 0), Compare(1, 0), Compare(1, 1), Merge(0, 0, 2)]
    );
}

#[test]
fn merge_sort_of_five_descending() {
    let input = vec![5, 4, 3, 2, 1];
    let mut arr = input.clone();
    let mut steps = VecDeque::new();
    merge_sort(&mut arr, 0, 4, &mut steps);
    let trace = collected(&steps);
    assert_eq!(arr, vec![1, 2, 3, 4, 5]);
    assert_eq!(trace.last(), Some(&Merge(0, 2, 4)));
    let mutating: Vec<Step> =
        trace.iter().copied().filter(|s| !matches!(s, Compare(_, _))).collect();
    assert_eq!(mutating, vec![Merge(0, 0, 1), Merge(0, 1, 2), Merge(3, 3, 4), Merge(0, 2, 4)]);
    assert_eq!(replayed(&input, &mutating), vec![1, 2, 3, 4, 5]);
    assert_eq!(replayed(&input, &trace), vec![1, 2, 3, 4, 5]);
}

#[test]
fn merge_sort_of_a_range_leaves_the_rest() {
    let mut arr = vec![9, 3, 2, 1, 0];
    let mut steps = VecDeque::new();
    merge_sort(&mut arr, 1, 3, &mut steps);
    assert_eq!(arr, vec![9, 1, 2, 3, 0]);
    let mut one = vec![4, 3];
    let mut none = VecDeque::new();
    merge_sort(&mut one, 1, 1, &mut none);
    assert!(none.is_empty());
    assert_eq!(one, vec![4, 3]);
}

#[test]
fn partition_puts_pivot_between_smaller_and_rest() {
    let mut arr = vec![2, 1, 5, 4, 3];
    let mut steps = VecDeque::new();
    let pivot = partition(&mut arr, 0, 4, &mut steps);
    assert_eq!(pivot, 2);
    assert_eq!(arr, vec![2, 1, 3, 4, 5]);
    assert_eq!(
        collected(&steps),
        vec![
            Compare(0, 4),
            Swap(0, 0),
            Compare(1, 4),
            Swap(1, 1),
            Compare(2, 4),
            Compare(3, 4),
            Swap(2, 4),
        ]
    );
}

#[test]
fn partition_of_single_element_swaps_it_with_itself() {
    let mut arr = vec![8, 6];
    let mut steps = VecDeque::new();
    let pivot = partition(&mut arr, 1, 1, &mut steps);
    assert_eq!(pivot, 1);
    assert_eq!(arr, vec![8, 6]);
    assert_eq!(collected(&steps), vec![Swap(1, 1)]);
}

#[test]
fn quick_sort_sorts_the_lower_part_first() {
    let mut arr = vec![2, 1, 5, 4, 3];
    let mut steps = VecDeque::new();
    quick_sort(&mut arr, &mut steps);
    assert_eq!(arr, vec![1, 2, 3, 4, 5]);
    assert_eq!(
        collected(&steps),
        vec![
            Compare(0, 4),
            Swap(0, 0),
            Compare(1, 4),
            Swap(1, 1),
            Compare(2, 4),
            Compare(3, 4),
            Swap(2, 4),
            Compare(0, 1),
            Swap(0, 1),
            Compare(3, 4),
            Swap(3, 3),
            Swap(4, 4),
        ]
    );
}

#[test]
fn quick_sort_on_one_and_none() {
    let mut one = vec![1];
    let mut steps = VecDeque::new();
    quick_sort(&mut one, &mut steps);
    assert!(steps.is_empty());
    assert_eq!(one, vec![1]);
    let mut none: Vec<isize> = vec![];
    quick_sort(&mut none, &mut steps);
    assert!(steps.is_empty());
    assert!(none.is_empty());
    assert!(generate(AlgorithmKind::Quick, &[1]).is_empty());
    assert!(generate(AlgorithmKind::Quick, &[]).is_empty());
}

#[test]
fn heapify_sifts_down_to_the_greater_child() {
    let mut arr = vec![1, 5, 9, 2, 3, 4, 8];
    let mut steps = VecDeque::new();
    heapify(&mut arr, 7, 0, &mut steps);
    assert_eq!(arr, vec![9, 5, 8, 2, 3, 4, 1]);
    assert_eq!(
        collected(&steps),
        vec![
            Compare(0, 1),
            Compare(1, 2),
            Swap(0, 2),
            Compare(2, 5),
            Compare(5, 6),
            Swap(2, 6),
        ]
    );
}

#[test]
fn heapify_outside_the_heap_does_nothing() {
    let mut arr = vec![1, 2, 3];
    let mut steps = VecDeque::new();
    heapify(&mut arr, 0, 0, &mut steps);
    heapify(&mut arr, 3, 3, &mut steps);
    heapify(&mut arr, 3, usize::MAX, &mut steps);
    heapify(&mut arr, 3, 1, &mut steps);
    assert!(steps.is_empty());
    assert_eq!(arr, vec![1, 2, 3]);
}

#[test]
fn heap_sort_trace_of_three() {
    let mut arr = vec![1, 2, 3];
    let mut steps = VecDeque::new();
    heap_sort(&mut arr, &mut steps);
    assert_eq!(arr, vec![1, 2, 3]);
    assert_eq!(
        collected(&steps),
        vec![
            Compare(0, 1),
            Compare(1, 2),
            Swap(0, 2),
            Swap(0, 2),
            Compare(0, 1),
            Swap(0, 1),
            Swap(0, 1),
            Swap(0, 0),
        ]
    );
}

#[test]
fn steps_are_appended_to_what_is_there() {
    let mut arr = vec![2, 1];
    let mut steps = VecDeque::new();
    steps.push_back(Merge(7, 8, 9));
    bubble_sort(&mut arr, &mut steps);
    assert_eq!(collected(&steps), vec![Merge(7, 8, 9), Compare(0, 1), Swap(0, 1)]);
}

#[test]
fn replaying_mutating_steps_sorts_like_the_reference() {
    for kind in all_kinds() {
        for input in samples() {
            let trace = collected(&generate(kind, &input));
            let mutating: Vec<Step> =
                trace.iter().copied().filter(|s| !matches!(s, Compare(_, _))).collect();
            let mut expected = input.clone();
            expected.sort();
            assert_eq!(replayed(&input, &mutating), expected, "{:?} on {:?}", kind, input);
            assert_eq!(replayed(&input, &trace), expected, "{:?} on {:?}", kind, input);
        }
    }
}

#[test]
fn direct_run_equals_replay() {
    for input in samples() {
        let mut expected = input.clone();
        expected.sort();
        let mut arr = input.clone();
        let mut steps = VecDeque::new();
        heap_sort(&mut arr, &mut steps);
        assert_eq!(arr, expected);
        assert_eq!(replayed(&input, &collected(&steps)), arr);
        let mut arr = input.clone();
        let mut steps = VecDeque::new();
        quick_sort(&mut arr, &mut steps);
        assert_eq!(arr, expected);
        assert_eq!(replayed(&input, &collected(&steps)), arr);
        let mut arr = input.clone();
        let mut steps = VecDeque::new();
        insertion_sort(&mut arr, &mut steps);
        assert_eq!(arr, expected);
        assert_eq!(replayed(&input, &collected(&steps)), arr);
    }
}

#[test]
fn short_arrays_give_no_step() {
    for kind in all_kinds() {
        assert!(generate(kind, &[]).is_empty(), "{:?}", kind);
        assert!(generate(kind, &[42]).is_empty(), "{:?}", kind);
    }
}

#[test]
fn sorted_input_is_never_swapped() {
    let input: Vec<isize> = vec![-4, -4, 0, 1, 5, 5, 9];
    let n = input.len();
    let bubble = collected(&generate(AlgorithmKind::Bubble, &input));
    assert_eq!(swaps(&bubble), 0);
    assert_eq!(compares(&bubble), n * (n - 1) / 2);
    let selection = collected(&generate(AlgorithmKind::Selection, &input));
    assert_eq!(swaps(&selection), 0);
    assert_eq!(compares(&selection), n * (n + 1) / 2 - 1);
    let insertion = collected(&generate(AlgorithmKind::Insertion, &input));
    assert_eq!(swaps(&insertion), 0);
    assert_eq!(compares(&insertion), n - 1);
}

#[test]
fn compare_count_does_not_depend_on_the_order() {
    let input: Vec<isize> = vec![9, 5, 5, 1, 0, -4, -4];
    let n = input.len();
    let bubble = collected(&generate(AlgorithmKind::Bubble, &input));
    assert_eq!(compares(&bubble), 21);
    assert_eq!(compares(&bubble), n * (n - 1) / 2);
    let selection = collected(&generate(AlgorithmKind::Selection, &input));
    assert_eq!(compares(&selection), 27);
    let insertion = collected(&generate(AlgorithmKind::Insertion, &input));
    assert_eq!(compares(&insertion), 21);
    assert_eq!(swaps(&insertion), 19);
}

#[test]
fn generating_twice_gives_the_same_trace() {
    for kind in all_kinds() {
        for input in samples() {
            let first = collected(&generate(kind, &input));
            let second = collected(&generate(kind, &input));
            assert_eq!(first, second);
        }
    }
}

#[test]
fn generate_leaves_the_input_alone() {
    let input = vec![3, 1, 2];
    let trace = generate(AlgorithmKind::Heap, &input);
    assert!(!trace.is_empty());
    assert_eq!(input, vec![3, 1, 2]);
}

#[test]
fn every_generated_step_fits_the_array() {
    for kind in all_kinds() {
        for input in samples() {
            for step in generate(kind, &input) {
                assert!(sorting_visualizer::trace::fits(step, input.len()));
            }
        }
    }
}

#[test]
fn algorithm_by_index() {
    assert_eq!(AlgorithmKind::from_index(0), Some(AlgorithmKind::Bubble));
    assert_eq!(AlgorithmKind::from_index(1), Some(AlgorithmKind::Selection));
    assert_eq!(AlgorithmKind::from_index(2), Some(AlgorithmKind::Insertion));
    assert_eq!(AlgorithmKind::from_index(3), Some(AlgorithmKind::Merge));
    assert_eq!(AlgorithmKind::from_index(4), Some(AlgorithmKind::Quick));
    assert_eq!(AlgorithmKind::from_index(5), Some(AlgorithmKind::Heap));
    assert_eq!(AlgorithmKind::from_index(6), None);
}
