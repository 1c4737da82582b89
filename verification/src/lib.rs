//! A step-instrumented sorting engine.
//!
//! Each algorithm sorts an array of signed integers and, while doing so,
//! records a flat trace of the comparisons, swaps and merges it performs.
//! A playback engine later applies that trace, a few steps at a time, to
//! the array that is shown to the user.
//!
//! - `trace`: the steps, and what replaying them on an array means.
//! - `run`: an array together with the trace written so far.
//! - `bubble`, `selection`, `insertion`, `merging`, `quick`, `heap`: what
//!   each algorithm does, as a function on runs, and why it sorts.
//! - `algorithms`: the algorithms themselves.
//! - `generator`: the trace of a sort, and the laws of such traces.
//! - `playback`: the live array and the steps still to be played.
//! - `shuffle`: random order for the array.
//! - `session`: the state of one visualisation.
pub mod trace;
pub mod run;
pub mod bubble;
pub mod selection;
pub mod insertion;
pub mod merging;
pub mod quick;
pub mod heap;
pub mod algorithms;
pub mod generator;
pub mod playback;
pub mod shuffle;
pub mod session;
