//! Where a school year starts and ends, found from the summer breaks around it.
use vstd::prelude::*;

use crate::cache::{
    is_holiday, is_next_workday, is_workday, next_schoolday, HolidayCache, FIRST_NAVIGABLE,
};
use crate::date::{day_number, lemma_year_start_grows, weekday_of, Date};
use crate::error::CalendarError;
use crate::holidays::{is_first_titled_in, is_last_titled_in, HolidayStore};

verus! {

/// Title that the school-holiday data gives each day of the summer break.
pub const SUMMER_HOLIDAY: &'static str = "Sommerferien";

/// Most steps that the backward search for the last school day takes.
pub const MAX_BACK_STEPS: u32 = 7;

/// Day number of January 1 of `year`.
pub open spec fn year_start(year: int) -> int {
    day_number(year, 1, 1)
}

/// One step of the backward search: from a Monday back to the Friday before, from a
/// Sunday back to the Friday before, from any other day back one day.
pub open spec fn back_step(n: int) -> int {
    if weekday_of(n) == 0 {
        n - 3
    } else if weekday_of(n) == 6 {
        n - 2
    } else {
        n - 1
    }
}

/// The first day that at most `steps` back steps from `day` reach and that is no
/// holiday, if there is one.
pub open spec fn back_search(holidays: Map<int, Seq<char>>, day: int, steps: nat) -> Option<int>
    decreases steps,
{
    if steps == 0 {
        None
    } else if !holidays.contains_key(back_step(day)) {
        Some(back_step(day))
    } else {
        back_search(holidays, back_step(day), (steps - 1) as nat)
    }
}

/// Last day of the summer break in `year`, if the store knows one.
pub open spec fn summer_end(store: Map<int, Seq<char>>, year: int) -> Option<int> {
    if exists|s: int|
        is_last_titled_in(store, SUMMER_HOLIDAY@, year_start(year), year_start(year + 1), Some(s)) {
        Some(
            choose|s: int|
                is_last_titled_in(
                    store,
                    SUMMER_HOLIDAY@,
                    year_start(year),
                    year_start(year + 1),
                    Some(s),
                ),
        )
    } else {
        None
    }
}

/// First day of the summer break in `year`, if the store knows one.
pub open spec fn summer_start(store: Map<int, Seq<char>>, year: int) -> Option<int> {
    if exists|s: int|
        is_first_titled_in(store, SUMMER_HOLIDAY@, year_start(year), year_start(year + 1), Some(s)) {
        Some(
            choose|s: int|
                is_first_titled_in(
                    store,
                    SUMMER_HOLIDAY@,
                    year_start(year),
                    year_start(year + 1),
                    Some(s),
                ),
        )
    } else {
        None
    }
}

/// What a search for the latest titled date finds is the `summer_end`.
proof fn lemma_summer_end(store: Map<int, Seq<char>>, year: int, found: Option<int>)
    requires
        is_last_titled_in(store, SUMMER_HOLIDAY@, year_start(year), year_start(year + 1), found),
    ensures
        summer_end(store, year) == found,
{
    if let Some(s) = found {
        let c = choose|c: int|
            is_last_titled_in(store, SUMMER_HOLIDAY@, year_start(year), year_start(year + 1), Some(c));
        assert(crate::holidays::titled_in(store, SUMMER_HOLIDAY@, year_start(year), year_start(year + 1), s));
        assert(crate::holidays::titled_in(store, SUMMER_HOLIDAY@, year_start(year), year_start(year + 1), c));
    } else {
        if exists|c: int|
            is_last_titled_in(store, SUMMER_HOLIDAY@, year_start(year), year_start(year + 1), Some(c)) {
            let c = choose|c: int|
                is_last_titled_in(store, SUMMER_HOLIDAY@, year_start(year), year_start(year + 1), Some(c));
            assert(crate::holidays::titled_in(store, SUMMER_HOLIDAY@, year_start(year), year_start(year + 1), c));
        }
    }
}

/// What a search for the earliest titled date finds is the `summer_start`.
proof fn lemma_summer_start(store: Map<int, Seq<char>>, year: int, found: Option<int>)
    requires
        is_first_titled_in(store, SUMMER_HOLIDAY@, year_start(year), year_start(year + 1), found),
    ensures
        summer_start(store, year) == found,
{
    if let Some(s) = found {
        let c = choose|c: int|
            is_first_titled_in(store, SUMMER_HOLIDAY@, year_start(year), year_start(year + 1), Some(c));
        assert(crate::holidays::titled_in(store, SUMMER_HOLIDAY@, year_start(year), year_start(year + 1), s));
        assert(crate::holidays::titled_in(store, SUMMER_HOLIDAY@, year_start(year), year_start(year + 1), c));
    } else {
        if exists|c: int|
            is_first_titled_in(store, SUMMER_HOLIDAY@, year_start(year), year_start(year + 1), Some(c)) {
            let c = choose|c: int|
                is_first_titled_in(store, SUMMER_HOLIDAY@, year_start(year), year_start(year + 1), Some(c));
            assert(crate::holidays::titled_in(store, SUMMER_HOLIDAY@, year_start(year), year_start(year + 1), c));
        }
    }
}

/// The first working day after `d`.
pub open spec fn next_workday(holidays: Map<int, Seq<char>>, d: int) -> int {
    choose|r: int| is_next_workday(holidays, d, r)
}

/// Only one day is the first working day after `d`.
pub proof fn lemma_next_workday_unique(holidays: Map<int, Seq<char>>, d: int, r: int)
    requires
        is_next_workday(holidays, d, r),
    ensures
        next_workday(holidays, d) == r,
{
    let c = next_workday(holidays, d);
    assert(is_next_workday(holidays, d, c));
    if c < r {
        assert(!is_workday(holidays, c));
    } else if r < c {
        assert(!is_workday(holidays, r));
    }
}

/// First and last school day of the school year starting in `year`.
pub open spec fn span_of(store: Map<int, Seq<char>>, holidays: Map<int, Seq<char>>, year: int) -> Result<
    (int, int),
    CalendarError,
> {
    match (summer_end(store, year), summer_start(store, year + 1)) {
        (Some(s), Some(t)) => match back_search(holidays, t, MAX_BACK_STEPS as nat) {
            Some(c) => Ok((next_workday(holidays, s), c)),
            None => Err(CalendarError::BoundsExceeded),
        },
        _ => Err(CalendarError::NotFound),
    }
}

/// The first and the last school day of the school year that starts in the summer of
/// `year`.
pub struct SchoolYearSpan {
    pub year: i32,
    pub first_day: Date,
    pub last_day: Date,
}

/// January 1 of `year` as a date.
fn january_first(year: i32) -> (r: Date)
    requires
        1 <= year <= 9999,
    ensures
        r@ == year_start(year as int),
{
    Date::from_ymd(year, 1, 1)
}

/// The first school day of the school year starting in the summer of `year`: the first
/// working day after the last day of that summer's break.
pub fn first_day_of_school(store: &HolidayStore, cache: &HolidayCache, year: i32) -> (r: Result<
    Date,
    CalendarError,
>)
    requires
        store.wf(),
        cache.wf(),
        1 <= year <= 9998,
    ensures
        match summer_end(store@, year as int) {
            None => r == Err::<Date, CalendarError>(CalendarError::NotFound),
            Some(s) => r matches Ok(d) && is_next_workday(cache@, s, d@),
        },
{
    let title = SUMMER_HOLIDAY.to_owned();
    let lo = january_first(year).days();
    let hi = january_first(year + 1).days();
    proof {
        lemma_year_start_grows(year + 1, 9999);
    }
    let found = store.last_titled_in(&title, lo, hi);
    proof {
        lemma_summer_end(store@, year as int, crate::date::day_of(found));
    }
    match found {
        Some(s) => Ok(next_schoolday(cache, s)),
        None => Err(CalendarError::NotFound),
    }
}

/// One step of the backward search.
fn step_back(day: Date) -> (r: Date)
    requires
        day@ >= FIRST_NAVIGABLE,
    ensures
        r@ == back_step(day@),
{
    let w = day.weekday();
    if w == 0 {
        day.pred().pred().pred()
    } else if w == 6 {
        day.pred().pred()
    } else {
        day.pred()
    }
}

/// The last school day of the school year starting in the summer of `year`: going back
/// from the first day of the next summer's break by `back_step`, the first day reached
/// that is no holiday. The search takes at most `MAX_BACK_STEPS` steps.
pub fn last_day_of_school(store: &HolidayStore, cache: &HolidayCache, year: i32) -> (r: Result<
    Date,
    CalendarError,
>)
    requires
        store.wf(),
        cache.wf(),
        1 <= year <= 9997,
    ensures
        match summer_start(store@, year + 1) {
            None => r == Err::<Date, CalendarError>(CalendarError::NotFound),
            Some(s) => match back_search(cache@, s, MAX_BACK_STEPS as nat) {
                Some(c) => r matches Ok(d) && d@ == c,
                None => r == Err::<Date, CalendarError>(CalendarError::BoundsExceeded),
            },
        },
{
    let title = SUMMER_HOLIDAY.to_owned();
    let lo = january_first(year + 1).days();
    let hi = january_first(year + 2).days();
    proof {
        lemma_year_start_grows(2, year + 1);
    }
    let found = store.first_titled_in(&title, lo, hi);
    proof {
        lemma_summer_start(store@, year + 1, crate::date::day_of(found));
    }
    let start = match found {
        Some(s) => s,
        None => {
            return Err(CalendarError::NotFound);
        },
    };
    let mut day = start;
    let mut k: u32 = 0;
    while k < MAX_BACK_STEPS
        invariant
            cache.wf(),
            0 <= k <= MAX_BACK_STEPS,
            day@ >= start@ - 3 * k,
            start@ >= 365,
            summer_start(store@, year + 1) == Some(start@),
            back_search(cache@, start@, MAX_BACK_STEPS as nat) == back_search(
                cache@,
                day@,
                (MAX_BACK_STEPS - k) as nat,
            ),
        decreases MAX_BACK_STEPS - k,
    {
        let ghost before = day;
        day = step_back(day);
        if !is_holiday(cache, day) {
            assert(back_search(cache@, before@, (MAX_BACK_STEPS - k) as nat) == Some(day@));
            return Ok(day);
        }
        k = k + 1;
    }
    Err(CalendarError::BoundsExceeded)
}

/// The span of the school year starting in the summer of `year`.
pub fn school_year_span(store: &HolidayStore, cache: &HolidayCache, year: i32) -> (r: Result<
    SchoolYearSpan,
    CalendarError,
>)
    requires
        store.wf(),
        cache.wf(),
        1 <= year <= 9997,
    ensures
        match span_of(store@, cache@, year as int) {
            Ok(span) => r matches Ok(v) && v.year == year && v.first_day@ == span.0
                && v.last_day@ == span.1,
            Err(e) => r == Err::<SchoolYearSpan, CalendarError>(e),
        },
        r matches Ok(v) ==> is_workday(cache@, v.first_day@),
{
    let first_day = first_day_of_school(store, cache, year)?;
    let last_day = last_day_of_school(store, cache, year)?;
    proof {
        lemma_next_workday_unique(cache@, summer_end(store@, year as int)->Some_0, first_day@);
    }
    Ok(SchoolYearSpan { year, first_day, last_day })
}

} // verus!
