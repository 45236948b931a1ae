//! Calendar dates of the proleptic Gregorian calendar, held as day numbers.
use vstd::prelude::*;

use chrono::Datelike;

verus! {

/// Format of dates in stored and exchanged text: `YYYY-MM-DD`.
pub const DATE_FORMAT: &'static str = "%Y-%m-%d";

/// Day number of 9999-12-31, the last date that `Date` holds.
pub const MAX_DAY: i32 = 3652059;

pub open spec fn is_leap_year(y: int) -> bool {
    y % 4 == 0 && (y % 100 != 0 || y % 400 == 0)
}

pub open spec fn days_in_month(y: int, m: int) -> int {
    if m == 2 {
        if is_leap_year(y) {
            29
        } else {
            28
        }
    } else if m == 4 || m == 6 || m == 9 || m == 11 {
        30
    } else {
        31
    }
}

/// Days of the year `y` that lie before the first of month `m`.
pub open spec fn days_before_month(y: int, m: int) -> int {
    let base: int = if m <= 1 {
        0
    } else if m == 2 {
        31
    } else if m == 3 {
        59
    } else if m == 4 {
        90
    } else if m == 5 {
        120
    } else if m == 6 {
        151
    } else if m == 7 {
        181
    } else if m == 8 {
        212
    } else if m == 9 {
        243
    } else if m == 10 {
        273
    } else if m == 11 {
        304
    } else {
        334
    };
    if m > 2 && is_leap_year(y) {
        base + 1
    } else {
        base
    }
}

/// A year, month and day that name a date from 0001-01-01 to 9999-12-31.
pub open spec fn is_valid_ymd(y: int, m: int, d: int) -> bool {
    1 <= y <= 9999 && 1 <= m <= 12 && 1 <= d <= days_in_month(y, m)
}

/// The number of the day, counting 0001-01-01 as day 1.
pub open spec fn day_number(y: int, m: int, d: int) -> int {
    365 * (y - 1) + (y - 1) / 4 - (y - 1) / 100 + (y - 1) / 400 + days_before_month(y, m) + d
}

/// Weekday of a day number: 0 for Monday up to 6 for Sunday (day 1 was a Monday).
pub open spec fn weekday_of(n: int) -> int {
    (n - 1) % 7
}

pub open spec fn is_weekend(n: int) -> bool {
    weekday_of(n) >= 5
}

/// Of three days in a row, at least one is a weekday.
pub proof fn lemma_weekend_is_short(n: int)
    ensures
        !(is_weekend(n) && is_weekend(n + 1) && is_weekend(n + 2)),
{
}

/// The day with day number `n` is an October 3 (German Unity Day).
pub open spec fn is_unity_day(n: int) -> bool {
    exists|y: int| 1 <= y <= 9999 && #[trigger] day_number(y, 10, 3) == n
}

/// A work day under the fixed rule: neither on a weekend nor an October 3.
pub open spec fn is_work_day(n: int) -> bool {
    !is_weekend(n) && !is_unity_day(n)
}

/// At most two of four days in a row fall on a weekend.
proof fn lemma_weekend_in_four(n: int)
    ensures
        !(is_weekend(n) && is_weekend(n + 1) && is_weekend(n + 2)),
        !(is_weekend(n) && is_weekend(n + 1) && is_weekend(n + 3)),
        !(is_weekend(n) && is_weekend(n + 2) && is_weekend(n + 3)),
        !(is_weekend(n + 1) && is_weekend(n + 2) && is_weekend(n + 3)),
{
}

/// The October 3 of a year lies inside that year.
proof fn lemma_unity_day_in_year(y: int)
    requires
        1 <= y <= 9999,
    ensures
        day_number(y, 1, 1) <= day_number(y, 10, 3) < day_number(y + 1, 1, 1),
        day_number(y, 10, 3) - day_number(y, 1, 1) <= 276,
        day_number(y, 10, 3) - day_number(y, 1, 1) >= 275,
{
    lemma_year_start_grows(y, y + 1);
}

/// Two October 3rds lie a year apart.
proof fn lemma_unity_days_apart(a: int, b: int)
    requires
        is_unity_day(a),
        is_unity_day(b),
        a < b,
    ensures
        b - a >= 364,
{
    let ya = choose|y: int| 1 <= y <= 9999 && #[trigger] day_number(y, 10, 3) == a;
    let yb = choose|y: int| 1 <= y <= 9999 && #[trigger] day_number(y, 10, 3) == b;
    lemma_unity_day_in_year(ya);
    lemma_unity_day_in_year(yb);
    if yb < ya {
        lemma_year_start_grows(yb + 1, ya);
    } else {
        lemma_year_start_grows(ya + 1, yb);
        lemma_year_start_grows(ya, yb);
    }
}

/// January 1 comes at least 365 days later each year.
pub proof fn lemma_year_start_grows(a: int, b: int)
    requires
        1 <= a <= b,
    ensures
        day_number(a, 1, 1) + 365 * (b - a) <= day_number(b, 1, 1),
{
    assert(days_before_month(a, 1) == 0 && days_before_month(b, 1) == 0);
    let x = a - 1;
    let y = b - 1;
    assert(x / 4 <= y / 4 && x / 400 <= y / 400) by {
        vstd::arithmetic::div_mod::lemma_div_is_ordered(x, y, 4);
        vstd::arithmetic::div_mod::lemma_div_is_ordered(x, y, 400);
    }
    assert(y / 100 - x / 100 <= y - x) by {
        vstd::arithmetic::div_mod::lemma_fundamental_div_mod(x, 100);
        vstd::arithmetic::div_mod::lemma_fundamental_div_mod(y, 100);
    }
}

/// Day number of an optional date.
pub open spec fn day_of(d: Option<Date>) -> Option<int> {
    match d {
        Some(x) => Some(x@),
        None => None,
    }
}

/// A calendar date from 0001-01-01 to 9999-12-31.
#[derive(Clone, Copy, Debug, PartialEq, Eq, Structural, PartialOrd, Ord, Hash)]
pub struct Date {
    days: i32,
}

impl View for Date {
    type V = int;

    closed spec fn view(&self) -> int {
        self.days as int
    }
}

impl Date {
    #[verifier::type_invariant]
    pub closed spec fn inv(self) -> bool {
        1 <= self.days <= MAX_DAY
    }

    /// The day number tells dates apart.
    pub proof fn lemma_view_injective(self, other: Date)
        ensures
            (self == other) == (self@ == other@),
    {
    }

    /// The date with the given year, month and day.
    pub fn from_ymd(year: i32, month: u8, day: u8) -> (r: Date)
        requires
            is_valid_ymd(year as int, month as int, day as int),
        ensures
            r@ == day_number(year as int, month as int, day as int),
    {
        let days = Self::day_number(year, month as u32, day as u32);
        Date { days }
    }

    /// The day number of a year, month and day, computed without overflow.
    fn day_number(year: i32, month: u32, day: u32) -> (r: i32)
        requires
            is_valid_ymd(year as int, month as int, day as int),
        ensures
            r as int == day_number(year as int, month as int, day as int),
            1 <= r <= MAX_DAY,
    {
        let y: i32 = year - 1;
        assert(0 <= 365 * y <= 365 * 9998) by (nonlinear_arith)
            requires
                0 <= y <= 9998,
        ;
        let before: i32 = if month <= 1 {
            0
        } else if month == 2 {
            31
        } else if month == 3 {
            59
        } else if month == 4 {
            90
        } else if month == 5 {
            120
        } else if month == 6 {
            151
        } else if month == 7 {
            181
        } else if month == 8 {
            212
        } else if month == 9 {
            243
        } else if month == 10 {
            273
        } else if month == 11 {
            304
        } else {
            334
        };
        let leap = year % 4 == 0 && (year % 100 != 0 || year % 400 == 0);
        let before: i32 = if month > 2 && leap {
            before + 1
        } else {
            before
        };
        proof {
            lemma_day_number_bounds(year as int, month as int, day as int);
        }
        365 * y + y / 4 - y / 100 + y / 400 + before + day as i32
    }

    /// The day number of this date, 0001-01-01 being day 1.
    pub fn days(&self) -> (r: i32)
        ensures
            r == self@,
            1 <= r <= MAX_DAY,
    {
        proof {
            use_type_invariant(self);
        }
        self.days
    }

    /// The date with the given day number, if there is one.
    pub fn from_days(days: i32) -> (r: Option<Date>)
        ensures
            r matches Some(d) <==> 1 <= days <= MAX_DAY,
            r matches Some(d) ==> d@ == days,
    {
        if 1 <= days && days <= MAX_DAY {
            Some(Date { days })
        } else {
            None
        }
    }

    /// The calendar year of this date.
    pub fn year(&self) -> (r: i32)
        ensures
            1 <= r <= 9999,
            day_number(r as int, 1, 1) <= self@ < day_number(r as int + 1, 1, 1),
    {
        year_of_day(self.days())
    }

    /// The ISO 8601 week-numbering year and week number of this date.
    pub fn iso_week(&self) -> (r: (i32, u32))
        ensures
            r.0 as int == iso_week_of(self@).0,
            r.1 as int == iso_week_of(self@).1,
            1 <= r.1 <= 53,
    {
        iso_week_of_day(self.days())
    }

    /// This date as `YYYY-MM-DD` text.
    pub fn format(&self) -> (r: String)
        ensures
            r@ == date_text(self@, DATE_FORMAT@),
    {
        format_day(self.days(), DATE_FORMAT)
    }

    /// The date that `s` gives under `fmt`, if chrono reads one from it and it lies
    /// within the range of `Date`.
    pub fn parse_from_str(s: &str, fmt: &str) -> (r: Option<Date>)
        ensures
            r matches Some(d) <==> (parsed_day_number(s@, fmt@) matches Some(n) && 1 <= n
                <= MAX_DAY),
            r matches Some(d) ==> parsed_day_number(s@, fmt@) == Some(d@),
    {
        match parse_day(s, fmt) {
            Some(n) => Self::from_days(n),
            None => None,
        }
    }

    /// Whether this date is a work day under the fixed rule: neither on a weekend nor
    /// an October 3.
    pub fn is_work_day(&self) -> (r: bool)
        ensures
            r == is_work_day(self@),
    {
        if self.is_weekend() {
            return false;
        }
        let n = self.days();
        let y = self.year();
        let october_third = Self::day_number(y, 10, 3);
        proof {
            lemma_unity_day_in_year(y as int);
            if is_unity_day(n as int) && n != october_third {
                let other = choose|x: int| 1 <= x <= 9999 && #[trigger] day_number(x, 10, 3) == n;
                lemma_unity_day_in_year(other);
                if other < y {
                    lemma_year_start_grows(other + 1, y as int);
                } else {
                    lemma_year_start_grows(y + 1, other);
                }
            }
        }
        n != october_third
    }

    /// The next work day after this date under the fixed rule.
    pub fn next(&self) -> (r: Date)
        requires
            self@ + 4 <= MAX_DAY,
        ensures
            self@ < r@,
            is_work_day(r@),
            forall|k: int| self@ < k < r@ ==> !is_work_day(k),
    {
        let mut day = self.succ();
        while !day.is_work_day()
            invariant
                self@ < day@ <= self@ + 4,
                self@ + 4 <= MAX_DAY,
                forall|k: int| self@ < k < day@ ==> !is_work_day(k),
            decreases self@ + 4 - day@,
        {
            proof {
                if day@ == self@ + 4 {
                    let n = self@ + 1;
                    assert(!is_work_day(n) && !is_work_day(n + 1) && !is_work_day(n + 2));
                    lemma_weekend_in_four(n);
                    if is_unity_day(n) && is_unity_day(n + 1) {
                        lemma_unity_days_apart(n, n + 1);
                    }
                    if is_unity_day(n) && is_unity_day(n + 2) {
                        lemma_unity_days_apart(n, n + 2);
                    }
                    if is_unity_day(n) && is_unity_day(n + 3) {
                        lemma_unity_days_apart(n, n + 3);
                    }
                    if is_unity_day(n + 1) && is_unity_day(n + 2) {
                        lemma_unity_days_apart(n + 1, n + 2);
                    }
                    if is_unity_day(n + 1) && is_unity_day(n + 3) {
                        lemma_unity_days_apart(n + 1, n + 3);
                    }
                    if is_unity_day(n + 2) && is_unity_day(n + 3) {
                        lemma_unity_days_apart(n + 2, n + 3);
                    }
                }
            }
            day = day.succ();
        }
        day
    }

    /// Weekday of this date: 0 for Monday up to 6 for Sunday.
    pub fn weekday(&self) -> (r: u8)
        ensures
            r as int == weekday_of(self@),
    {
        proof {
            use_type_invariant(self);
        }
        ((self.days - 1) % 7) as u8
    }

    /// Whether this date is a Saturday or a Sunday.
    pub fn is_weekend(&self) -> (r: bool)
        ensures
            r == is_weekend(self@),
    {
        self.weekday() >= 5
    }

    /// The following day.
    pub fn succ(&self) -> (r: Date)
        requires
            self@ < MAX_DAY,
        ensures
            r@ == self@ + 1,
    {
        proof {
            use_type_invariant(self);
        }
        Date { days: self.days + 1 }
    }

    /// The preceding day.
    pub fn pred(&self) -> (r: Date)
        requires
            self@ > 1,
        ensures
            r@ == self@ - 1,
    {
        proof {
            use_type_invariant(self);
        }
        Date { days: self.days - 1 }
    }
}

/// ISO 8601 week-numbering year and week number of the day with day number `n`.
pub uninterp spec fn iso_week_of(n: int) -> (int, int);

/// The text that chrono's formatting gives the day with day number `n` under `fmt`.
pub uninterp spec fn date_text(n: int, fmt: Seq<char>) -> Seq<char>;

/// The day number of the date that chrono reads from `s` under `fmt`, if it reads one.
pub uninterp spec fn parsed_day_number(s: Seq<char>, fmt: Seq<char>) -> Option<int>;

/// Relies on chrono's `NaiveDate::from_num_days_from_ce_opt` (which accepts every day
/// number of a `Date`) and `Datelike::iso_week`; `IsoWeek::week` ranges from 1 to 53.
#[verifier::external_body]
fn iso_week_of_day(days: i32) -> (r: (i32, u32))
    requires
        1 <= days <= MAX_DAY,
    ensures
        r.0 as int == iso_week_of(days as int).0,
        r.1 as int == iso_week_of(days as int).1,
        1 <= r.1 <= 53,
{
    let week = chrono::NaiveDate::from_num_days_from_ce_opt(days).unwrap().iso_week();
    (week.year(), week.week())
}

/// Relies on chrono's `NaiveDate::from_num_days_from_ce_opt` and `Datelike::year`: the
/// calendar year of the day, i.e. the year whose first day is at or before it and whose
/// successor's first day is after it.
#[verifier::external_body]
fn year_of_day(days: i32) -> (r: i32)
    requires
        1 <= days <= MAX_DAY,
    ensures
        1 <= r <= 9999,
        day_number(r as int, 1, 1) <= days < day_number(r as int + 1, 1, 1),
{
    chrono::NaiveDate::from_num_days_from_ce_opt(days).unwrap().year()
}

/// Relies on chrono's `NaiveDate::from_num_days_from_ce_opt` and `NaiveDate::format`
/// with `DATE_FORMAT`, which holds only valid specifiers.
#[verifier::external_body]
fn format_day(days: i32, fmt: &str) -> (r: String)
    requires
        1 <= days <= MAX_DAY,
        fmt@ == DATE_FORMAT@,
    ensures
        r@ == date_text(days as int, fmt@),
{
    chrono::NaiveDate::from_num_days_from_ce_opt(days).unwrap().format(fmt).to_string()
}

/// Relies on chrono's `NaiveDate::parse_from_str` and `Datelike::num_days_from_ce`.
#[verifier::external_body]
fn parse_day(s: &str, fmt: &str) -> (r: Option<i32>)
    ensures
        match r {
            Some(n) => parsed_day_number(s@, fmt@) == Some(n as int),
            None => parsed_day_number(s@, fmt@) is None,
        },
{
    match chrono::NaiveDate::parse_from_str(s, fmt) {
        Ok(d) => Some(d.num_days_from_ce()),
        Err(_) => None,
    }
}

proof fn lemma_day_number_bounds(y: int, m: int, d: int)
    requires
        is_valid_ymd(y, m, d),
    ensures
        1 <= day_number(y, m, d) <= MAX_DAY,
{
    assert(0 <= 365 * (y - 1) <= 365 * 9998) by (nonlinear_arith)
        requires
            1 <= y <= 9999,
    ;
    assert(day_number(y, m, d) <= day_number(9999, 12, 31)) by {
        if y < 9999 {
            assert(365 * (y - 1) <= 365 * 9997) by (nonlinear_arith)
                requires
                    1 <= y <= 9998,
            ;
        }
    }
}

} // verus!
