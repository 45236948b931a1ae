//! Settings that the front end reads: the earliest and latest time of day offered
//! for a work interval.
use vstd::prelude::*;

verus! {

/// Bounds of the times of day offered for a work interval, as `HH:MM`.
pub struct Globals {
    pub mintime: &'static str,
    pub maxtime: &'static str,
}

impl Globals {
    pub fn new() -> (r: Globals)
        ensures
            r.mintime@ == "12:30"@,
            r.maxtime@ == "16:00"@,
    {
        Globals { mintime: "12:30", maxtime: "16:00" }
    }
}

/// The settings.
pub fn get() -> (r: Globals)
    ensures
        r.mintime@ == "12:30"@,
        r.maxtime@ == "16:00"@,
{
    Globals::new()
}

} // verus!
