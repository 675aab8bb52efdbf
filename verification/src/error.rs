//! The error kinds of the library.

use crate::talk::Talk;
use vstd::prelude::*;

verus! {

/// Everything that can go wrong while parsing talks or building a schedule.
#[derive(Debug, PartialEq, Eq)]
pub enum ScheduleError {
    /// A session was asked for with an end time not strictly after its start.
    InvalidWindow,
    /// A line carried a duration token whose digits do not form a minute
    /// count (empty, or too large for a `u32`).
    ParseFailure,
    /// The named talk is longer than every session window and can never be
    /// placed; scheduling stops instead of looping forever.
    UnplaceableTalk(Talk),
}

} // verus!
