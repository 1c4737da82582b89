//! The state of one visualisation: the live array, the trace that is
//! playing on it, and whether a sort is running or has finished.
use crate::generator::{trace_of, AlgorithmKind};
use crate::playback::{
    compared_by, swapped_by, Playback, PlaybackError, PlaybackResult, PlaybackView,
};
use std::collections::VecDeque;
use crate::trace::{all_fit, replay, sorted, Step};
use vstd::prelude::*;

verus! {

/// The array `1, 2, ..., size`.
pub open spec fn ascending_seq(size: nat) -> Seq<isize> {
    Seq::new(size, |i: int| (i + 1) as isize)
}

/// The array `1, 2, ..., size`, which is what is shown before anything was
/// shuffled.
pub fn ascending(size: usize) -> (array: Vec<isize>)
    requires
        size <= isize::MAX,
    ensures
        array@ == ascending_seq(size as nat),
        sorted(array@),
{
    let mut array: Vec<isize> = Vec::new();
    let mut i: usize = 0;
    while i < size
        invariant
            i <= size,
            size <= isize::MAX,
            array@ == ascending_seq(i as nat),
        decreases size - i,
    {
        array.push((i + 1) as isize);
        i += 1;
        assert(array@ =~= ascending_seq(i as nat));
    }
    array
}

/// The longest array that is offered for `kind`: the algorithms that take
/// a quadratic number of steps get the shorter one.
pub open spec fn size_limit_of(kind: AlgorithmKind) -> usize {
    match kind {
        AlgorithmKind::Bubble | AlgorithmKind::Selection | AlgorithmKind::Insertion => 1024,
        _ => 4096,
    }
}

/// The longest array that is offered for `kind`.
pub fn size_limit(kind: AlgorithmKind) -> (limit: usize)
    ensures
        limit == size_limit_of(kind),
{
    match kind {
        AlgorithmKind::Bubble | AlgorithmKind::Selection | AlgorithmKind::Insertion => 1024,
        _ => 4096,
    }
}

/// What a session stands at.
pub struct SessionView {
    /// The array as shown.
    pub array: Seq<isize>,
    /// The steps still to be played.
    pub pending: Seq<Step>,
    /// Whether a sort is being played.
    pub running: bool,
    /// Whether the array is known to be sorted.
    pub sorted: bool,
}

/// One visualisation.
pub struct Session {
    playback: Playback,
    running: bool,
    sorted: bool,
}

impl View for Session {
    type V = SessionView;

    closed spec fn view(&self) -> SessionView {
        SessionView {
            array: self.playback@.array,
            pending: self.playback@.pending,
            running: self.running,
            sorted: self.sorted,
        }
    }
}

impl Session {
    /// A session on the array `1, ..., size`: sorted, nothing running, no
    /// trace.
    pub fn new(size: usize) -> (session: Session)
        requires
            size <= isize::MAX,
        ensures
            session@.array == ascending_seq(size as nat),
            session@.pending.len() == 0,
            !session@.running,
            session@.sorted,
    {
        Session {
            playback: Playback::new(ascending(size), VecDeque::new()),
            running: false,
            sorted: true,
        }
    }

    /// The array as it stands.
    pub fn array(&self) -> (array: &Vec<isize>)
        ensures
            array@ == self@.array,
    {
        self.playback.array()
    }

    /// Whether a sort is being played.
    pub fn is_running(&self) -> (running: bool)
        ensures
            running == self@.running,
    {
        self.running
    }

    /// Whether the array is known to be sorted.
    pub fn is_sorted(&self) -> (is_sorted: bool)
        ensures
            is_sorted == self@.sorted,
    {
        self.sorted
    }

    /// The number of steps still to be played.
    pub fn remaining(&self) -> (count: usize)
        ensures
            count == self@.pending.len(),
    {
        self.playback.remaining()
    }

    /// The user asks for a sort with `kind`. Unless a sort is running or
    /// the array is known to be sorted, the trace of sorting the array as
    /// it stands replaces whatever trace was left, and the sort runs.
    pub fn run(&mut self, kind: AlgorithmKind)
        ensures
            final(self)@.array == old(self)@.array,
            old(self)@.running || old(self)@.sorted ==> final(self)@ == old(self)@,
            !old(self)@.running && !old(self)@.sorted ==> {
                &&& final(self)@.running
                &&& !final(self)@.sorted
                &&& final(self)@.pending == trace_of(kind, old(self)@.array)
                &&& all_fit(final(self)@.pending, old(self)@.array.len())
                &&& sorted(replay(old(self)@.array, final(self)@.pending))
            },
    {
        if !self.running && !self.sorted {
            self.playback.restart(kind);
            self.running = true;
        }
    }

    /// The user stops the sort. The trace stays where it is.
    pub fn stop(&mut self)
        ensures
            final(self)@.array == old(self)@.array,
            final(self)@.pending == old(self)@.pending,
            final(self)@.sorted == old(self)@.sorted,
            !final(self)@.running,
    {
        self.running = false;
    }

    /// The user asks for a random order. While a sort runs nothing
    /// happens; otherwise the array is shuffled, it counts as unsorted,
    /// and what was left of a trace is discarded.
    pub fn shuffle(&mut self)
        ensures
            old(self)@.running ==> final(self)@ == old(self)@,
            !old(self)@.running ==> {
                &&& final(self)@.array.to_multiset() == old(self)@.array.to_multiset()
                &&& final(self)@.pending.len() == 0
                &&& !final(self)@.running
                &&& !final(self)@.sorted
            },
    {
        if !self.running {
            self.playback.shuffle();
            self.sorted = false;
        }
    }

    /// The user asks for the array `1, ..., len` again. That happens only
    /// if the array is not known to be sorted and no sort runs; the array
    /// keeps its length, counts as sorted, and what was left of a trace
    /// is discarded. An array of more than `isize::MAX` elements, whose
    /// length no element could hold, is left alone.
    pub fn clear(&mut self)
        ensures
            old(self)@.running || old(self)@.sorted || old(self)@.array.len() > isize::MAX
                ==> final(self)@ == old(self)@,
            !old(self)@.running && !old(self)@.sorted && old(self)@.array.len() <= isize::MAX ==> {
                &&& final(self)@.array == ascending_seq(old(self)@.array.len())
                &&& final(self)@.pending.len() == 0
                &&& !final(self)@.running
                &&& final(self)@.sorted
            },
    {
        let len = self.playback.array().len();
        if !self.sorted && !self.running && len <= isize::MAX as usize {
            self.playback.set_array(ascending(len));
            self.sorted = true;
        }
    }

    /// The array is made anew with `size` elements: it becomes
    /// `1, ..., size`, shuffled if the array did not count as sorted. The
    /// trace is discarded and nothing runs any more.
    pub fn rebuild(&mut self, size: usize)
        requires
            size <= isize::MAX,
        ensures
            final(self)@.array.to_multiset() == ascending_seq(size as nat).to_multiset(),
            old(self)@.sorted ==> final(self)@.array == ascending_seq(size as nat),
            final(self)@.pending.len() == 0,
            !final(self)@.running,
            final(self)@.sorted == old(self)@.sorted,
    {
        self.playback.set_array(ascending(size));
        if !self.sorted {
            self.playback.shuffle();
        }
        self.running = false;
    }

    /// The length of the array is set to `size`. If that is its length
    /// already, nothing happens; otherwise the array is made anew.
    pub fn resize(&mut self, size: usize)
        requires
            size <= isize::MAX,
        ensures
            size == old(self)@.array.len() ==> final(self)@ == old(self)@,
            size != old(self)@.array.len() ==> {
                &&& final(self)@.array.to_multiset() == ascending_seq(size as nat).to_multiset()
                &&& old(self)@.sorted ==> final(self)@.array == ascending_seq(size as nat)
                &&& final(self)@.pending.len() == 0
                &&& !final(self)@.running
                &&& final(self)@.sorted == old(self)@.sorted
            },
    {
        if size != self.playback.array().len() {
            self.rebuild(size);
        }
    }

    /// One tick of the display: if a sort runs, up to `n` steps are
    /// played. When the trace is at its end the sort no longer runs and
    /// the array counts as sorted. When a step does not fit the array,
    /// the sort no longer runs and the trace is discarded. If no sort
    /// runs, nothing happens and nothing is reported.
    pub fn tick(&mut self, n: usize) -> (res: Option<Result<PlaybackResult, PlaybackError>>)
        ensures
            res is None <==> !old(self)@.running,
            !old(self)@.running ==> final(self)@ == old(self)@,
            old(self)@.running ==> {
                let before = PlaybackView { array: old(self)@.array, pending: old(self)@.pending };
                &&& final(self)@.array == before.advance(n as nat).array
                &&& match res {
                    Some(Ok(shown)) => {
                        &&& !before.blocked(n as nat)
                        &&& final(self)@.pending == before.advance(n as nat).pending
                        &&& shown.done == before.advance(n as nat).done()
                        &&& shown.compared@ == compared_by(before.played(n as nat))
                        &&& shown.swapped@ == swapped_by(before.played(n as nat))
                        &&& final(self)@.running == !shown.done
                        &&& final(self)@.sorted == (shown.done || old(self)@.sorted)
                    },
                    Some(Err(e)) => {
                        &&& before.blocked(n as nat)
                        &&& e == PlaybackError::Invalidated
                        &&& final(self)@.pending.len() == 0
                        &&& !final(self)@.running
                        &&& final(self)@.sorted == old(self)@.sorted
                    },
                    None => false,
                }
            },
    {
        if !self.running {
            return None;
        }
        match self.playback.advance(n) {
            Ok(shown) => {
                if shown.done {
                    self.running = false;
                    self.sorted = true;
                }
                Some(Ok(shown))
            },
            Err(e) => {
                self.running = false;
                self.playback.reset();
                Some(Err(e))
            },
        }
    }
}

} // verus!
