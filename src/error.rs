//! Errors of the calendar engine.
use vstd::prelude::*;

verus! {

/// What can go wrong in the calendar engine.
#[derive(Clone, Copy, Debug, PartialEq, Eq, Structural)]
pub enum CalendarError {
    /// Upstream holiday data holds a date that cannot be read.
    Parse,
    /// No summer-holiday record lies in the window that a school year needs.
    NotFound,
    /// The backward search for the last school day ran out of steps.
    BoundsExceeded,
    /// A date lies outside the range that the calendar can step through.
    OutOfRange,
}

} // verus!
