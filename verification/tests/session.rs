use sorting_visualizer::generator::AlgorithmKind;
use sorting_visualizer::session::{ascending, size_limit, Session};

fn shuffled_session(size: usize) -> Session {
    let mut session = Session::new(size);
    session.shuffle();
    session
}

#[test]
fn ascending_counts_from_one() {
    assert_eq!(ascending(0), Vec::<isize>::new());
    assert_eq!(ascending(1), vec![1]);
    assert_eq!(ascending(5), vec![1, 2, 3, 4, 5]);
}

#[test]
fn size_limit_is_lower_for_quadratic_sorts() {
    assert_eq!(size_limit(AlgorithmKind::Bubble), 1024);
    assert_eq!(size_limit(AlgorithmKind::Selection), 1024);
    assert_eq!(size_limit(AlgorithmKind::Insertion), 1024);
    assert_eq!(size_limit(AlgorithmKind::Merge), 4096);
    assert_eq!(size_limit(AlgorithmKind::Quick), 4096);
    assert_eq!(size_limit(AlgorithmKind::Heap), 4096);
}

#[test]
fn new_session_is_sorted_and_idle() {
    let session = Session::new(32);
    assert_eq!(session.array(), &ascending(32));
    assert!(session.is_sorted());
    assert!(!session.is_running());
    assert_eq!(session.remaining(), 0);
}

#[test]
fn run_on_sorted_array_does_nothing() {
    let mut session = Session::new(8);
    session.run(AlgorithmKind::Bubble);
    assert!(!session.is_running());
    assert!(session.is_sorted());
    assert_eq!(session.remaining(), 0);
    assert!(session.tick(3).is_none());
}

#[test]
fn shuffle_marks_the_array_unsorted() {
    let mut session = Session::new(64);
    session.shuffle();
    assert!(!session.is_sorted());
    assert!(!session.is_running());
    assert_ne!(session.array(), &ascending(64));
    let mut back = session.array().clone();
    back.sort();
    assert_eq!(back, ascending(64));
}

#[test]
fn run_then_ticks_sort_the_array() {
    for index in 0..6 {
        let kind = AlgorithmKind::from_index(index).unwrap();
        let mut session = shuffled_session(48);
        session.run(kind);
        assert!(session.is_running());
        assert!(!session.is_sorted());
        let mut ticks = 0;
        while session.is_running() {
            let shown = session.tick(7).unwrap().unwrap();
            assert_eq!(shown.done, !session.is_running());
            ticks += 1;
            assert!(ticks < 10_000);
        }
        assert!(session.is_sorted());
        assert_eq!(session.remaining(), 0);
        assert_eq!(session.array(), &ascending(48));
        assert!(session.tick(7).is_none());
    }
}

#[test]
fn stop_keeps_the_trace_and_run_starts_afresh() {
    let mut session = shuffled_session(16);
    session.run(AlgorithmKind::Selection);
    let total = session.remaining();
    assert_eq!(total, 15 * 18 / 2 + swaps_left(&session));
    session.tick(5);
    session.stop();
    assert!(!session.is_running());
    assert_eq!(session.remaining(), total - 5);
    assert!(session.tick(5).is_none());
    assert_eq!(session.remaining(), total - 5);
    session.run(AlgorithmKind::Insertion);
    assert!(session.is_running());
    while session.is_running() {
        session.tick(1000);
    }
    assert_eq!(session.array(), &ascending(16));
}

fn swaps_left(session: &Session) -> usize {
    let trace = sorting_visualizer::generator::generate(AlgorithmKind::Selection, session.array());
    trace
        .iter()
        .filter(|step| matches!(step, sorting_visualizer::trace::Step::Swap(_, _)))
        .count()
}

#[test]
fn shuffle_while_running_does_nothing() {
    let mut session = shuffled_session(16);
    session.run(AlgorithmKind::Quick);
    let before = session.array().clone();
    let left = session.remaining();
    session.shuffle();
    assert!(session.is_running());
    assert_eq!(session.array(), &before);
    assert_eq!(session.remaining(), left);
}

#[test]
fn clear_restores_the_ascending_array() {
    let mut session = shuffled_session(16);
    session.run(AlgorithmKind::Merge);
    session.tick(4);
    session.clear();
    assert!(session.is_running());
    session.stop();
    session.clear();
    assert!(session.is_sorted());
    assert!(!session.is_running());
    assert_eq!(session.remaining(), 0);
    assert_eq!(session.array(), &ascending(16));
    session.clear();
    assert_eq!(session.array(), &ascending(16));
}

#[test]
fn resize_discards_the_trace() {
    let mut session = shuffled_session(16);
    session.run(AlgorithmKind::Heap);
    session.tick(3);
    session.resize(16);
    assert!(session.is_running());
    session.resize(10);
    assert!(!session.is_running());
    assert!(!session.is_sorted());
    assert_eq!(session.remaining(), 0);
    let mut back = session.array().clone();
    back.sort();
    assert_eq!(back, ascending(10));
    let mut sorted = Session::new(4);
    sorted.resize(6);
    assert!(sorted.is_sorted());
    assert_eq!(sorted.array(), &ascending(6));
}

#[test]
fn tick_reports_the_last_step() {
    let mut session = shuffled_session(2);
    while session.array() != &vec![2, 1] {
        session.shuffle();
    }
    session.run(AlgorithmKind::Bubble);
    let shown = session.tick(1).unwrap().unwrap();
    assert_eq!(shown.compared, vec![0, 1]);
    assert!(shown.swapped.is_empty());
    assert!(!shown.done);
    let shown = session.tick(1).unwrap().unwrap();
    assert_eq!(shown.swapped, vec![0, 1]);
    assert!(shown.done);
    assert!(session.is_sorted());
    assert!(!session.is_running());
    assert_eq!(session.array(), &vec![1, 2]);
}

#[test]
fn rebuild_makes_the_array_anew() {
    let mut session = shuffled_session(32);
    session.run(AlgorithmKind::Quick);
    session.tick(3);
    session.rebuild(32);
    assert!(!session.is_running());
    assert!(!session.is_sorted());
    assert_eq!(session.remaining(), 0);
    let mut back = session.array().clone();
    back.sort();
    assert_eq!(back, ascending(32));
    let mut sorted = Session::new(5);
    sorted.rebuild(3);
    assert_eq!(sorted.array(), &ascending(3));
    assert!(sorted.is_sorted());
}
