//! The playback engine: the live array and the steps still to be played
//! on it, a few at a time.
use crate::generator::{generate, lemma_trace_sorts, trace_of, AlgorithmKind};
use crate::run::{lemma_replay_concat, lemma_replay_len};
use crate::shuffle::shuffle_vec;
use crate::trace::{all_fit, apply, fits, replay, sorted, step_fits, Step};
use std::collections::VecDeque;
use vstd::prelude::*;

verus! {

/// The number of steps at the front of `pending` that fit an array of
/// length `len`: playback cannot go past the first step that does not.
pub open spec fn fitting(pending: Seq<Step>, len: nat) -> nat
    decreases pending.len(),
{
    if pending.len() == 0 || !step_fits(pending[0], len) {
        0
    } else {
        1 + fitting(pending.skip(1), len)
    }
}

/// The indices to mark as compared once the steps of `applied` were
/// played: those of its last step, if that is a comparison.
pub open spec fn compared_by(applied: Seq<Step>) -> Seq<usize> {
    if applied.len() == 0 {
        Seq::empty()
    } else {
        match applied.last() {
            Step::Compare(i, j) => seq![i, j],
            _ => Seq::empty(),
        }
    }
}

/// The indices to mark as swapped once the steps of `applied` were played:
/// those of its last step, if that is a swap.
pub open spec fn swapped_by(applied: Seq<Step>) -> Seq<usize> {
    if applied.len() == 0 {
        Seq::empty()
    } else {
        match applied.last() {
            Step::Swap(i, j) => seq![i, j],
            _ => Seq::empty(),
        }
    }
}

/// What a playback stands at: the array as shown and the steps still to
/// be played.
pub struct PlaybackView {
    pub array: Seq<isize>,
    pub pending: Seq<Step>,
}

impl PlaybackView {
    /// The number of steps that an advance by `n` plays: `n`, unless the
    /// trace ends or a step that does not fit the array comes first.
    pub open spec fn reach(self, n: nat) -> nat {
        if n <= fitting(self.pending, self.array.len()) {
            n
        } else {
            fitting(self.pending, self.array.len())
        }
    }

    /// The steps that an advance by `n` plays.
    pub open spec fn played(self, n: nat) -> Seq<Step> {
        self.pending.take(self.reach(n) as int)
    }

    /// Where the playback stands after an advance by `n`.
    pub open spec fn advance(self, n: nat) -> PlaybackView {
        PlaybackView {
            array: replay(self.array, self.played(n)),
            pending: self.pending.skip(self.reach(n) as int),
        }
    }

    /// Where the playback stands after `k` advances by one step each.
    pub open spec fn advance_singly(self, k: nat) -> PlaybackView
        decreases k,
    {
        if k == 0 {
            self
        } else {
            self.advance_singly((k - 1) as nat).advance(1)
        }
    }

    /// Whether an advance by `n` is stopped by a step that does not fit
    /// the array, which happens when the array was changed under a trace.
    pub open spec fn blocked(self, n: nat) -> bool {
        self.reach(n) < n && self.reach(n) < self.pending.len()
    }

    /// Whether every step was played.
    pub open spec fn done(self) -> bool {
        self.pending.len() == 0
    }
}

/// What one advance reports.
#[derive(Clone, Debug)]
pub struct PlaybackResult {
    /// The indices that the last step played compared.
    pub compared: Vec<usize>,
    /// The indices that the last step played swapped.
    pub swapped: Vec<usize>,
    /// Whether every step was played.
    pub done: bool,
}

/// Why an advance failed.
#[derive(Clone, Copy, Debug, PartialEq, Eq, Structural)]
pub enum PlaybackError {
    /// The next step does not fit the array: the trace was made for
    /// another array and has to be discarded.
    Invalidated,
}

/// The live array together with the steps that are still to be played on
/// it.
pub struct Playback {
    array: Vec<isize>,
    pending: VecDeque<Step>,
}

impl View for Playback {
    type V = PlaybackView;

    closed spec fn view(&self) -> PlaybackView {
        PlaybackView { array: self.array@, pending: self.pending@ }
    }
}

impl Playback {
    /// A playback of `trace` on `array`.
    pub fn new(array: Vec<isize>, trace: VecDeque<Step>) -> (playback: Playback)
        ensures
            playback@.array == array@,
            playback@.pending == trace@,
    {
        Playback { array, pending: trace }
    }

    /// A playback on `array` of the trace that sorting it with `kind`
    /// gives. Played to its end, it leaves the array sorted.
    pub fn start(kind: AlgorithmKind, array: Vec<isize>) -> (playback: Playback)
        ensures
            playback@.array == array@,
            playback@.pending == trace_of(kind, array@),
            all_fit(playback@.pending, array@.len()),
            sorted(replay(array@, playback@.pending)),
            replay(array@, playback@.pending).to_multiset() == array@.to_multiset(),
    {
        let pending = generate(kind, array.as_slice());
        Playback { array, pending }
    }

    /// The array as it stands.
    pub fn array(&self) -> (array: &Vec<isize>)
        ensures
            array@ == self@.array,
    {
        &self.array
    }

    /// The number of steps still to be played.
    pub fn remaining(&self) -> (count: usize)
        ensures
            count == self@.pending.len(),
    {
        self.pending.len()
    }

    /// Whether every step was played.
    pub fn is_done(&self) -> (done: bool)
        ensures
            done == self@.done(),
    {
        self.pending.len() == 0
    }

    /// Discards the steps that are still to be played; the array stays as
    /// it stands.
    pub fn reset(&mut self)
        ensures
            final(self)@.array == old(self)@.array,
            final(self)@.pending.len() == 0,
    {
        self.pending.clear();
    }

    /// Puts `array` in place of the live array. A trace is only good for
    /// the array it was made for, so the steps still to be played are
    /// discarded.
    pub fn set_array(&mut self, array: Vec<isize>)
        ensures
            final(self)@.array == array@,
            final(self)@.pending.len() == 0,
    {
        self.array = array;
        self.pending.clear();
    }

    /// Sorts a copy of the live array with `kind` and takes the trace of
    /// that sort in place of the steps still to be played; the live array
    /// stays as it stands. Played to its end, the trace leaves it sorted.
    pub fn restart(&mut self, kind: AlgorithmKind)
        ensures
            final(self)@.array == old(self)@.array,
            final(self)@.pending == trace_of(kind, old(self)@.array),
            all_fit(final(self)@.pending, old(self)@.array.len()),
            sorted(replay(old(self)@.array, final(self)@.pending)),
            replay(old(self)@.array, final(self)@.pending).to_multiset() == old(
                self,
            )@.array.to_multiset(),
    {
        self.pending = generate(kind, self.array.as_slice());
    }

    /// Puts the live array in a random order. The array keeps its
    /// elements, and the steps still to be played, made for another
    /// order, are discarded.
    pub fn shuffle(&mut self)
        ensures
            final(self)@.array.to_multiset() == old(self)@.array.to_multiset(),
            final(self)@.pending.len() == 0,
    {
        shuffle_vec(&mut self.array);
        self.pending.clear();
    }

    /// Plays up to `n` steps from the front of the trace on the live
    /// array: a swap exchanges two elements, a merge merges two
    /// neighbouring runs, a comparison changes nothing.
    ///
    /// Playing stops early at the end of the trace, and before a step
    /// that does not fit the array; in that case alone the result is
    /// `Invalidated`, and the step stays at the front until the trace is
    /// discarded. Otherwise the result names the indices of the last step
    /// played and says whether the trace is at its end.
    pub fn advance(&mut self, n: usize) -> (res: Result<PlaybackResult, PlaybackError>)
        ensures
            final(self)@ == old(self)@.advance(n as nat),
            res is Err <==> old(self)@.blocked(n as nat),
            match res {
                Ok(shown) => {
                    &&& shown.done == final(self)@.done()
                    &&& shown.compared@ == compared_by(old(self)@.played(n as nat))
                    &&& shown.swapped@ == swapped_by(old(self)@.played(n as nat))
                },
                Err(e) => e == PlaybackError::Invalidated,
            },
    {
        let ghost start = self@;
        let len = self.array.len();
        let mut compared: Vec<usize> = Vec::new();
        let mut swapped: Vec<usize> = Vec::new();
        let mut count: usize = 0;
        proof {
            assert(start.pending.skip(0) =~= start.pending);
            assert(start.pending.take(0) =~= Seq::<Step>::empty());
        }
        while count < n && self.pending.len() > 0
            invariant
                start == old(self)@,
                count <= n,
                len == start.array.len(),
                self.array@.len() == len,
                count <= start.pending.len(),
                self.pending@ == start.pending.skip(count as int),
                self.array@ == replay(start.array, start.pending.take(count as int)),
                fitting(start.pending, len as nat) == count + fitting(self.pending@, len as nat),
                compared@ == compared_by(start.pending.take(count as int)),
                swapped@ == swapped_by(start.pending.take(count as int)),
            decreases n - count,
        {
            let step = self.pending[0];
            if !fits(step, len) {
                proof {
                    assert(fitting(self.pending@, len as nat) == 0);
                    assert(start.reach(n as nat) == count);
                }
                return Err(PlaybackError::Invalidated);
            }
            proof {
                assert(start.pending.take(count + 1).drop_last() =~= start.pending.take(
                    count as int,
                ));
                assert(start.pending.take(count + 1).last() == step);
                assert(start.pending.skip(count as int).skip(1) =~= start.pending.skip(count + 1));
                assert(start.pending.skip(count as int).subrange(
                    1,
                    start.pending.skip(count as int).len() as int,
                ) =~= start.pending.skip(count + 1));
            }
            self.pending.pop_front();
            apply(self.array.as_mut_slice(), step);
            compared.clear();
            swapped.clear();
            match step {
                Step::Compare(i, j) => {
                    compared.push(i);
                    compared.push(j);
                },
                Step::Swap(i, j) => {
                    swapped.push(i);
                    swapped.push(j);
                },
                Step::Merge(_, _, _) => {},
            }
            proof {
                assert(compared@ =~= compared_by(start.pending.take(count + 1)));
                assert(swapped@ =~= swapped_by(start.pending.take(count + 1)));
            }
            count += 1;
        }
        Ok(PlaybackResult { compared, swapped, done: self.pending.len() == 0 })
    }
}

/// The steps counted by `fitting` all fit, they are no more than there are
/// steps, and the step after them, if there is one, does not fit.
pub proof fn lemma_fitting(pending: Seq<Step>, len: nat)
    ensures
        fitting(pending, len) <= pending.len(),
        all_fit(pending.take(fitting(pending, len) as int), len),
        fitting(pending, len) < pending.len() ==> !step_fits(
            pending[fitting(pending, len) as int],
            len,
        ),
        all_fit(pending, len) ==> fitting(pending, len) == pending.len(),
    decreases pending.len(),
{
    if pending.len() == 0 || !step_fits(pending[0], len) {
    } else {
        let rest = pending.skip(1);
        lemma_fitting(rest, len);
        let k = fitting(rest, len) as int;
        let front = pending.take(k + 1);
        assert forall|q: int| 0 <= q < front.len() implies step_fits(#[trigger] front[q], len) by {
            if q > 0 {
                assert(front[q] == rest.take(k)[q - 1]);
            }
        }
        if all_fit(pending, len) {
            assert forall|q: int| 0 <= q < rest.len() implies step_fits(
                #[trigger] rest[q],
                len,
            ) by {
                assert(rest[q] == pending[q + 1]);
            }
        }
    }
}

/// Behind `k` steps that fit, as many fewer fit.
pub proof fn lemma_fitting_skip(pending: Seq<Step>, len: nat, k: nat)
    requires
        k <= fitting(pending, len),
    ensures
        k <= pending.len(),
        fitting(pending.skip(k as int), len) == fitting(pending, len) - k,
    decreases k,
{
    if k == 0 {
        assert(pending.skip(0) =~= pending);
    } else {
        lemma_fitting(pending.skip(1), len);
        lemma_fitting_skip(pending.skip(1), len, (k - 1) as nat);
        assert(pending.skip(1).skip(k - 1) =~= pending.skip(k as int));
    }
}

/// Advancing by `a` steps and then by `b` is advancing by `a + b`: the
/// array and the steps left are the same, however a number of steps is
/// split over the calls.
pub proof fn lemma_advance_split(v: PlaybackView, a: nat, b: nat)
    ensures
        v.advance(a).advance(b) == v.advance(a + b),
{
    let len = v.array.len();
    let f = fitting(v.pending, len);
    let k1 = v.reach(a);
    lemma_fitting(v.pending, len);
    lemma_fitting_skip(v.pending, len, k1);
    lemma_replay_len(v.array, v.played(a));
    let mid = v.advance(a);
    let k2 = mid.reach(b);
    assert(k1 + k2 == v.reach(a + b));
    lemma_fitting(mid.pending, len);
    assert(v.played(a) + mid.played(b) =~= v.played(a + b));
    lemma_replay_concat(v.array, v.played(a), mid.played(b));
    assert(mid.pending.skip(k2 as int) =~= v.pending.skip((k1 + k2) as int));
}

/// Advancing `k` times by one step is advancing once by `k` steps.
pub proof fn lemma_advance_singly(v: PlaybackView, k: nat)
    ensures
        v.advance_singly(k) == v.advance(k),
    decreases k,
{
    if k == 0 {
        assert(v.played(0) =~= Seq::<Step>::empty());
        assert(v.pending.skip(0) =~= v.pending);
    } else {
        lemma_advance_singly(v, (k - 1) as nat);
        lemma_advance_split(v, (k - 1) as nat, 1);
    }
}

/// Once every step was played, advancing changes nothing.
pub proof fn lemma_advance_when_done(v: PlaybackView, n: nat)
    requires
        v.done(),
    ensures
        v.advance(n) == v,
        v.advance(n).done(),
        !v.blocked(n),
{
    assert(v.played(n) =~= Seq::<Step>::empty());
    assert(v.pending.skip(0) =~= v.pending);
}

/// An advance by at least as many steps as are left, all of which fit the
/// array, plays them all: the array is the replay of the whole trace,
/// and the playback is done.
pub proof fn lemma_advance_to_end(v: PlaybackView, n: nat)
    requires
        all_fit(v.pending, v.array.len()),
        n >= v.pending.len(),
    ensures
        v.advance(n).array == replay(v.array, v.pending),
        v.advance(n).done(),
        !v.blocked(n),
{
    lemma_fitting(v.pending, v.array.len());
    assert(v.played(n) =~= v.pending);
}

/// Playing the trace of a sort to its end on the array it was made for
/// sorts that array: no step is refused, the playback is done, and the
/// array holds the elements it had, in non-decreasing order.
pub proof fn lemma_playback_sorts(kind: AlgorithmKind, a: Seq<isize>, n: nat)
    requires
        a.len() <= usize::MAX,
        n >= trace_of(kind, a).len(),
    ensures
        !(PlaybackView { array: a, pending: trace_of(kind, a) }).blocked(n),
        (PlaybackView { array: a, pending: trace_of(kind, a) }).advance(n).done(),
        sorted((PlaybackView { array: a, pending: trace_of(kind, a) }).advance(n).array),
        (PlaybackView { array: a, pending: trace_of(kind, a) }).advance(n).array.to_multiset()
            == a.to_multiset(),
{
    lemma_trace_sorts(kind, a);
    lemma_advance_to_end(PlaybackView { array: a, pending: trace_of(kind, a) }, n);
}

} // verus!
