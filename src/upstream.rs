//! Holiday data as the two upstream sources give it, turned into holiday records.
use vstd::prelude::*;

use crate::date::{parsed_day_number, Date, DATE_FORMAT, MAX_DAY};
use crate::error::CalendarError;
use crate::holidays::{record_views, HolidayRecord};

verus! {

/// Format of the start and end of a school-holiday range.
pub const SCHOOL_HOLIDAY_FORMAT: &'static str = "%Y-%m-%dT00:00";

/// A public holiday as the public-holiday source lists it: a title and a date.
pub struct GeneralHoliday {
    pub title: String,
    pub date: String,
}

/// A school holiday as the school-holiday source lists it: a named range of dates,
/// both ends included.
pub struct SchoolHoliday {
    pub start: String,
    pub end: String,
    pub name: String,
}

/// What `str::to_uppercase` makes of `s`.
pub uninterp spec fn upper_of(s: Seq<char>) -> Seq<char>;

/// Relies on `str::to_uppercase`: the result depends on the characters of `s` alone.
#[verifier::external_body]
fn to_uppercase(s: &str) -> (r: String)
    ensures
        r@ == upper_of(s@),
{
    s.to_uppercase()
}

/// `name` with its first character upper-cased.
pub open spec fn capitalized(name: Seq<char>) -> Seq<char> {
    if name.len() == 0 {
        name
    } else {
        upper_of(name.subrange(0, 1)) + name.subrange(1, name.len() as int)
    }
}

/// The day number that `s` gives under `fmt`, if chrono reads one and it is a `Date`.
pub open spec fn parsed_date(s: Seq<char>, fmt: Seq<char>) -> Option<int> {
    match parsed_day_number(s, fmt) {
        Some(n) => if 1 <= n <= MAX_DAY {
            Some(n)
        } else {
            None
        },
        None => None,
    }
}

/// One record for each day from `start` to `end`, all with title `title`.
pub open spec fn range_records(start: int, end: int, title: Seq<char>) -> Seq<(int, Seq<char>)>
    decreases end - start + 1,
{
    if start > end {
        Seq::empty()
    } else {
        seq![(start, title)] + range_records(start + 1, end, title)
    }
}

/// Records for the school-holiday ranges, in order, or `None` where a date cannot be read.
pub open spec fn school_records(ranges: Seq<SchoolHoliday>) -> Option<Seq<(int, Seq<char>)>>
    decreases ranges.len(),
{
    if ranges.len() == 0 {
        Some(Seq::empty())
    } else {
        let last = ranges.last();
        match (
            school_records(ranges.drop_last()),
            parsed_date(last.start@, SCHOOL_HOLIDAY_FORMAT@),
            parsed_date(last.end@, SCHOOL_HOLIDAY_FORMAT@),
        ) {
            (Some(prev), Some(s), Some(e)) => Some(prev + range_records(s, e, capitalized(last.name@))),
            _ => None,
        }
    }
}

/// Records for the public holidays, in order, or `None` where a date cannot be read.
pub open spec fn general_records(entries: Seq<GeneralHoliday>) -> Option<Seq<(int, Seq<char>)>>
    decreases entries.len(),
{
    if entries.len() == 0 {
        Some(Seq::empty())
    } else {
        let last = entries.last();
        match (general_records(entries.drop_last()), parsed_date(last.date@, DATE_FORMAT@)) {
            (Some(prev), Some(d)) => Some(prev.push((d, last.title@))),
            _ => None,
        }
    }
}

/// `name` with its first character upper-cased.
pub fn capitalize(name: &str) -> (r: String)
    ensures
        r@ == capitalized(name@),
{
    let n = name.unicode_len();
    if n == 0 {
        return name.to_owned();
    }
    let head = to_uppercase(name.substring_char(0, 1));
    head.concat(name.substring_char(1, n))
}

/// One record for each public holiday.
pub fn read_general_holidays(entries: &Vec<GeneralHoliday>) -> (r: Result<
    Vec<HolidayRecord>,
    CalendarError,
>)
    ensures
        match general_records(entries@) {
            Some(v) => r matches Ok(records) && record_views(records@) == v,
            None => r == Err::<Vec<HolidayRecord>, CalendarError>(CalendarError::Parse),
        },
{
    let mut result: Vec<HolidayRecord> = Vec::new();
    let mut i: usize = 0;
    while i < entries.len()
        invariant
            0 <= i <= entries.len(),
            general_records(entries@.take(i as int)) == Some(record_views(result@)),
        decreases entries.len() - i,
    {
        assert(entries@.take(i + 1).drop_last() =~= entries@.take(i as int));
        let date = match Date::parse_from_str(entries[i].date.as_str(), DATE_FORMAT) {
            Some(d) => d,
            None => {
                proof {
                    lemma_general_error_stays(entries@, i + 1);
                }
                return Err(CalendarError::Parse);
            },
        };
        result.push(HolidayRecord { date, title: entries[i].title.clone() });
        assert(record_views(result@) =~= record_views(result@.drop_last()).push(
            (date@, entries@[i as int].title@),
        ));
        i = i + 1;
    }
    assert(entries@.take(entries.len() as int) =~= entries@);
    Ok(result)
}

proof fn lemma_general_error_stays(entries: Seq<GeneralHoliday>, k: int)
    requires
        0 <= k <= entries.len(),
        general_records(entries.take(k)) is None,
    ensures
        general_records(entries) is None,
    decreases entries.len() - k,
{
    if k < entries.len() {
        assert(entries.take(k + 1).drop_last() =~= entries.take(k));
        lemma_general_error_stays(entries, k + 1);
    } else {
        assert(entries.take(k) =~= entries);
    }
}

proof fn lemma_school_error_stays(ranges: Seq<SchoolHoliday>, k: int)
    requires
        0 <= k <= ranges.len(),
        school_records(ranges.take(k)) is None,
    ensures
        school_records(ranges) is None,
    decreases ranges.len() - k,
{
    if k < ranges.len() {
        assert(ranges.take(k + 1).drop_last() =~= ranges.take(k));
        lemma_school_error_stays(ranges, k + 1);
    } else {
        assert(ranges.take(k) =~= ranges);
    }
}

/// Records from `start` onwards, split off the front.
proof fn lemma_range_step(start: int, end: int, title: Seq<char>)
    requires
        start <= end,
    ensures
        range_records(start, end, title) == seq![(start, title)] + range_records(start + 1, end, title),
{
}

/// A range with records up to `n` is that up to `n - 1` with one more at its end.
proof fn lemma_range_grow(start: int, n: int, title: Seq<char>)
    requires
        start <= n,
    ensures
        range_records(start, n, title) == range_records(start, n - 1, title).push((n, title)),
    decreases n - start,
{
    if start < n {
        lemma_range_grow(start + 1, n, title);
        lemma_range_step(start, n, title);
        lemma_range_step(start, n - 1, title);
        assert(range_records(start, n, title) =~= range_records(start, n - 1, title).push((n, title)));
    } else {
        lemma_range_step(start, n, title);
        assert(range_records(start + 1, n, title) == Seq::<(int, Seq<char>)>::empty());
        assert(range_records(start, n - 1, title) == Seq::<(int, Seq<char>)>::empty());
        assert(range_records(start, n, title) =~= range_records(start, n - 1, title).push((n, title)));
    }
}

/// One record for each day of each school-holiday range, titled with the range's name
/// with its first character upper-cased.
pub fn read_school_holidays(ranges: &Vec<SchoolHoliday>) -> (r: Result<
    Vec<HolidayRecord>,
    CalendarError,
>)
    ensures
        match school_records(ranges@) {
            Some(v) => r matches Ok(records) && record_views(records@) == v,
            None => r == Err::<Vec<HolidayRecord>, CalendarError>(CalendarError::Parse),
        },
{
    let mut result: Vec<HolidayRecord> = Vec::new();
    let mut i: usize = 0;
    while i < ranges.len()
        invariant
            0 <= i <= ranges.len(),
            school_records(ranges@.take(i as int)) == Some(record_views(result@)),
        decreases ranges.len() - i,
    {
        assert(ranges@.take(i + 1).drop_last() =~= ranges@.take(i as int));
        let start = Date::parse_from_str(ranges[i].start.as_str(), SCHOOL_HOLIDAY_FORMAT);
        let end = Date::parse_from_str(ranges[i].end.as_str(), SCHOOL_HOLIDAY_FORMAT);
        let (start, end) = match (start, end) {
            (Some(s), Some(e)) => (s.days(), e.days()),
            _ => {
                proof {
                    lemma_school_error_stays(ranges@, i + 1);
                }
                return Err(CalendarError::Parse);
            },
        };
        let title = capitalize(ranges[i].name.as_str());
        let ghost prev = result@;
        let mut n: i32 = start;
        while n <= end
            invariant
                1 <= start <= n,
                n <= end + 1 || n == start,
                end <= MAX_DAY,
                record_views(result@) == record_views(prev) + range_records(
                    start as int,
                    n - 1,
                    title@,
                ),
            decreases end + 1 - n,
        {
            let date = Date::from_days(n).unwrap();
            let ghost before = result@;
            result.push(HolidayRecord { date, title: title.clone() });
            proof {
                assert(record_views(result@) =~= record_views(before).push((n as int, title@)));
                lemma_range_grow(start as int, n as int, title@);
                assert(record_views(result@) =~= record_views(prev) + range_records(
                    start as int,
                    n as int,
                    title@,
                ));
            }
            n = n + 1;
        }
        proof {
            assert(range_records(start as int, n - 1, title@) == range_records(
                start as int,
                end as int,
                title@,
            ));
        }
        i = i + 1;
    }
    assert(ranges@.take(ranges.len() as int) =~= ranges@);
    Ok(result)
}

} // verus!
