//! Application update events. The raw window-event translation is plumbing
//! around the windowing backend and lives with the surrounding application;
//! the core only carries the timed update event.

use vstd::prelude::*;
use crate::state::TimeSpan;

verus! {

/// A timed update event.
#[derive(Clone, Copy, Debug, PartialEq, Eq, Structural, Default)]
pub struct Update {
    /// The span since the last update was emitted.
    pub since_last: TimeSpan,
    /// The span since the start of the application loop.
    pub since_start: TimeSpan,
}

} // verus!
