//! The in-memory holiday index and the working-day navigator over it.
use vstd::prelude::*;

use std::collections::HashMap;

use crate::date::{is_weekend, lemma_weekend_is_short, Date, DATE_FORMAT, MAX_DAY};
use crate::error::CalendarError;
use crate::holidays::HolidayStore;
use crate::upstream::parsed_date;

verus! {

broadcast use vstd::std_specs::hash::group_hash_axioms;

/// First day number that the navigator may start from or meet as a holiday.
pub const FIRST_NAVIGABLE: i32 = 4;

/// Last day number that the navigator may start from or meet as a holiday.
pub const LAST_NAVIGABLE: i32 = 3652056;

/// A working day: neither on a weekend nor a holiday.
pub open spec fn is_workday(holidays: Map<int, Seq<char>>, n: int) -> bool {
    !is_weekend(n) && !holidays.contains_key(n)
}

/// `r` is the first working day after `d`.
pub open spec fn is_next_workday(holidays: Map<int, Seq<char>>, d: int, r: int) -> bool {
    &&& d < r
    &&& is_workday(holidays, r)
    &&& forall|k: int| d < k < r ==> !is_workday(holidays, k)
}

/// `r` is the last working day before `d`.
pub open spec fn is_previous_workday(holidays: Map<int, Seq<char>>, d: int, r: int) -> bool {
    &&& r < d
    &&& is_workday(holidays, r)
    &&& forall|k: int| r < k < d ==> !is_workday(holidays, k)
}

/// Mapping from holiday dates to titles, replaced as a whole from a `HolidayStore`.
pub struct HolidayCache {
    index: HashMap<i32, String>,
    first: i32,
    last: i32,
}

impl View for HolidayCache {
    type V = Map<int, Seq<char>>;

    /// Holiday day numbers and their titles.
    closed spec fn view(&self) -> Map<int, Seq<char>> {
        Map::new(
            |n: int| i32::MIN <= n <= i32::MAX && self.index@.contains_key(n as i32),
            |n: int| self.index@[n as i32]@,
        )
    }
}

impl HolidayCache {
    /// Every holiday lies between `first` and `last`, inside the navigable range.
    pub closed spec fn wf(&self) -> bool {
        &&& FIRST_NAVIGABLE <= self.first
        &&& self.last <= LAST_NAVIGABLE
        &&& forall|k: i32| #[trigger]
            self.index@.contains_key(k) ==> self.first <= k <= self.last
    }

    /// No holiday lies before `first` or after `last`.
    proof fn lemma_outside(&self, n: int)
        requires
            self.wf(),
            n < self.first || n > self.last,
        ensures
            !self@.contains_key(n),
    {
        if self@.contains_key(n) {
            assert(self.index@.contains_key(n as i32));
        }
    }

    /// A cache that knows no holiday.
    pub fn new() -> (r: HolidayCache)
        ensures
            r.wf(),
            r@ == Map::<int, Seq<char>>::empty(),
    {
        let r = HolidayCache { index: HashMap::new(), first: FIRST_NAVIGABLE, last: FIRST_NAVIGABLE };
        assert(r@ =~= Map::<int, Seq<char>>::empty());
        r
    }

    /// Replace the index by the full contents of `store`. Where a holiday of the store
    /// lies outside the navigable range, fail and keep the index as it was.
    pub fn rebuild(&mut self, store: &HolidayStore)
        -> (r: Result<(), CalendarError>)
        requires
            old(self).wf(),
            store.wf(),
        ensures
            final(self).wf(),
            r is Ok <==> forall|n: int| #[trigger]
                store@.contains_key(n) ==> FIRST_NAVIGABLE <= n <= LAST_NAVIGABLE,
            r is Ok ==> final(self)@ == store@,
            r is Err ==> r == Err::<(), CalendarError>(CalendarError::OutOfRange),
            r is Err ==> *final(self) == *old(self),
    {
        let records = store.records();
        let mut index: HashMap<i32, String> = HashMap::new();
        let mut first: i32 = LAST_NAVIGABLE;
        let mut last: i32 = FIRST_NAVIGABLE;
        let mut i: usize = 0;
        while i < records.len()
            invariant
                store.wf(),
                old(self).wf(),
                *self == *old(self),
                records@ == store.records_view(),
                0 <= i <= records.len(),
                FIRST_NAVIGABLE <= first <= LAST_NAVIGABLE,
                FIRST_NAVIGABLE <= last <= LAST_NAVIGABLE,
                forall|k: i32| #[trigger]
                    index@.contains_key(k) ==> first <= k <= last,
                forall|k: i32| #[trigger]
                    index@.contains_key(k) <==> exists|j: int|
                        0 <= j < i && #[trigger] records@[j].date@ == k as int,
                forall|j: int|
                    0 <= j < i ==> FIRST_NAVIGABLE <= #[trigger] records@[j].date@
                        <= LAST_NAVIGABLE,
                forall|j: int|
                    0 <= j < i ==> #[trigger] index@[records@[j].date@ as i32]@
                        == records@[j].title@,
            decreases records.len() - i,
        {
            let n = records[i].date.days();
            if n < FIRST_NAVIGABLE || n > LAST_NAVIGABLE {
                proof {
                    store.lemma_record_in_map(i as int);
                }
                return Err(CalendarError::OutOfRange);
            }
            let title = records[i].title.clone();
            proof {
                store.lemma_unique(i as int);
            }
            index.insert(n, title);
            if n < first {
                first = n;
            }
            if n > last {
                last = n;
            }
            i = i + 1;
        }
        let ghost new_cache = HolidayCache { index, first, last };
        proof {
            assert forall|n: int| #[trigger] new_cache@.contains_key(n) == store@.contains_key(n) by {
                if store@.contains_key(n) {
                    store.lemma_map_has_record(n);
                }
                if new_cache@.contains_key(n) {
                    let j = choose|j: int| 0 <= j < records@.len() && #[trigger] records@[j].date@ == (n as i32) as int;
                    store.lemma_record_in_map(j);
                }
            }
            assert forall|n: int| #[trigger] new_cache@.contains_key(n) implies new_cache@[n] == store@[n] by {
                store.lemma_map_has_record(n);
                let j = choose|j: int| 0 <= j < records@.len() && #[trigger] records@[j].date@ == n;
                store.lemma_record_in_map(j);
            }
            assert(new_cache@ =~= store@);
            assert forall|n: int| #[trigger] store@.contains_key(n) implies FIRST_NAVIGABLE <= n <= LAST_NAVIGABLE by {
                store.lemma_map_has_record(n);
            }
        }
        self.index = index;
        self.first = first;
        self.last = last;
        Ok(())
    }

    /// Whether the cache lists `date` as a holiday.
    pub fn contains(&self, date: Date) -> (r: bool)
        ensures
            r == self@.contains_key(date@),
    {
        let n = date.days();
        self.index.contains_key(&n)
    }
}

/// Whether `date` is a school or public holiday.
pub fn is_holiday(cache: &HolidayCache, date: Date) -> (r: bool)
    ensures
        r == cache@.contains_key(date@),
{
    cache.contains(date)
}

/// Whether `date` is a working day: neither on a weekend nor a holiday.
pub fn is_schoolday(cache: &HolidayCache, date: Date) -> (r: bool)
    ensures
        r == is_workday(cache@, date@),
{
    !date.is_weekend() && !cache.contains(date)
}

/// The first working day after `date`.
pub fn next_schoolday(cache: &HolidayCache, date: Date) -> (r: Date)
    requires
        cache.wf(),
        date@ <= LAST_NAVIGABLE,
    ensures
        is_next_workday(cache@, date@, r@),
{
    let ghost bound: int = if date@ > cache.last { date@ + 3 } else { cache.last + 3 };
    let mut day = date.succ();
    while !is_schoolday(cache, day)
        invariant
            cache.wf(),
            date@ < day@ <= bound,
            bound <= MAX_DAY,
            bound == (if date@ > cache.last { date@ + 3 } else { cache.last + 3 }),
            forall|k: int| date@ < k < day@ ==> !is_workday(cache@, k),
        decreases bound - day@,
    {
        proof {
            if day@ == bound {
                cache.lemma_outside(bound - 2);
                cache.lemma_outside(bound - 1);
                cache.lemma_outside(bound);
                assert(!is_workday(cache@, bound - 2));
                assert(!is_workday(cache@, bound - 1));
                lemma_weekend_is_short(bound - 2);
            }
        }
        day = day.succ();
    }
    day
}

/// The last working day before `date`.
pub fn previous_schoolday(cache: &HolidayCache, date: Date) -> (r: Date)
    requires
        cache.wf(),
        date@ >= FIRST_NAVIGABLE,
    ensures
        is_previous_workday(cache@, date@, r@),
{
    let ghost bound: int = if date@ < cache.first { date@ - 3 } else { cache.first - 3 };
    let mut day = date.pred();
    while !is_schoolday(cache, day)
        invariant
            cache.wf(),
            bound <= day@ < date@,
            bound >= 1,
            bound == (if date@ < cache.first { date@ - 3 } else { cache.first - 3 }),
            forall|k: int| day@ < k < date@ ==> !is_workday(cache@, k),
        decreases day@ - bound,
    {
        proof {
            if day@ == bound {
                cache.lemma_outside(bound);
                cache.lemma_outside(bound + 1);
                cache.lemma_outside(bound + 2);
                assert(!is_workday(cache@, bound + 2));
                assert(!is_workday(cache@, bound + 1));
                lemma_weekend_is_short(bound);
            }
        }
        day = day.pred();
    }
    day
}

/// The first working day after the date that `day` gives as `YYYY-MM-DD`.
pub fn get_next_schoolday(cache: &HolidayCache, day: &str) -> (r: Result<Date, CalendarError>)
    requires
        cache.wf(),
    ensures
        match parsed_date(day@, DATE_FORMAT@) {
            None => r == Err::<Date, CalendarError>(CalendarError::Parse),
            Some(n) => if n <= LAST_NAVIGABLE {
                r matches Ok(d) && is_next_workday(cache@, n, d@)
            } else {
                r == Err::<Date, CalendarError>(CalendarError::OutOfRange)
            },
        },
{
    match Date::parse_from_str(day, DATE_FORMAT) {
        Some(date) => if date.days() <= LAST_NAVIGABLE {
            Ok(next_schoolday(cache, date))
        } else {
            Err(CalendarError::OutOfRange)
        },
        None => Err(CalendarError::Parse),
    }
}

/// The last working day before the date that `day` gives as `YYYY-MM-DD`.
pub fn get_previous_schoolday(cache: &HolidayCache, day: &str) -> (r: Result<Date, CalendarError>)
    requires
        cache.wf(),
    ensures
        match parsed_date(day@, DATE_FORMAT@) {
            None => r == Err::<Date, CalendarError>(CalendarError::Parse),
            Some(n) => if n >= FIRST_NAVIGABLE {
                r matches Ok(d) && is_previous_workday(cache@, n, d@)
            } else {
                r == Err::<Date, CalendarError>(CalendarError::OutOfRange)
            },
        },
{
    match Date::parse_from_str(day, DATE_FORMAT) {
        Some(date) => if date.days() >= FIRST_NAVIGABLE {
            Ok(previous_schoolday(cache, date))
        } else {
            Err(CalendarError::OutOfRange)
        },
        None => Err(CalendarError::Parse),
    }
}

} // verus!
