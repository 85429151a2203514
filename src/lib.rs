//! Live chord identification from a stream of note-on / note-off events.
//!
//! - [`pitch`] names a note number by its pitch class, optionally with octave.
//! - [`chord`] matches an ascending set of held notes against a fixed table of
//!   interval shapes and produces a chord label.
//! - [`tracker`] keeps the set of currently held notes and turns events into
//!   the label to display.
use vstd::prelude::*;

pub mod chord;
pub mod pitch;
pub mod tracker;

verus! {

} // verus!
