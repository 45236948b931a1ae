//! The four-way week rotation: each ISO week of a school year gets one of the
//! labels 0 to 3, in turn.
use vstd::prelude::*;

use crate::cache::{is_workday, next_schoolday, HolidayCache, LAST_NAVIGABLE};
use crate::date::{iso_week_of, lemma_year_start_grows, Date};
use crate::error::CalendarError;
use crate::holidays::HolidayStore;
use crate::school_year::{
    back_search, back_step, school_year_span, span_of, summer_start, year_start, MAX_BACK_STEPS,
};

verus! {

/// First school year that the week table covers.
pub const MIN_YEAR: i32 = 2017;

/// A row of the week table: the rotation label of one ISO week.
#[derive(Clone, Copy, Debug, PartialEq, Eq, Structural)]
pub struct NewWeek {
    pub year: i32,
    pub week_of_year: i32,
    pub type_of_week: i32,
}

/// The row for the week of the day with day number `n`, with label `label`.
pub open spec fn week_row(n: int, label: int) -> NewWeek {
    NewWeek {
        year: iso_week_of(n).0 as i32,
        week_of_year: iso_week_of(n).1 as i32,
        type_of_week: label as i32,
    }
}

impl NewWeek {
    /// The row for the ISO week that `date` falls in, with label `type_of_week`.
    pub fn new(date: Date, type_of_week: i32) -> (r: NewWeek)
        ensures
            r == week_row(date@, type_of_week as int),
    {
        let (year, week) = date.iso_week();
        NewWeek { year, week_of_year: week as i32, type_of_week }
    }
}

/// The working days from `from` to `to`, both included, in order.
pub open spec fn workdays_in(holidays: Map<int, Seq<char>>, from: int, to: int) -> Seq<int>
    decreases to - from + 1,
{
    if from > to {
        Seq::empty()
    } else if is_workday(holidays, from) {
        seq![from] + workdays_in(holidays, from + 1, to)
    } else {
        workdays_in(holidays, from + 1, to)
    }
}

/// Rows for the school days `days`, in order: a new row, with the next label, each
/// time the week number differs from that of the day before.
pub open spec fn week_rows(days: Seq<int>, prev_week: int, label: int) -> Seq<NewWeek>
    decreases days.len(),
{
    if days.len() == 0 {
        Seq::empty()
    } else {
        let week = iso_week_of(days[0]).1;
        if week != prev_week {
            seq![week_row(days[0], label)] + week_rows(days.drop_first(), week, (label + 1) % 4)
        } else {
            week_rows(days.drop_first(), prev_week, label)
        }
    }
}

/// Rows of a school year from `first` to `last`; the first week gets label 0.
pub open spec fn year_rows(holidays: Map<int, Seq<char>>, first: int, last: int) -> Seq<NewWeek> {
    week_rows(workdays_in(holidays, first, last), iso_week_of(first).1 - 1, 0)
}

/// Rows of the school years `from` to `to`, in order, or the first error met.
pub open spec fn rows_for_years(
    store: Map<int, Seq<char>>,
    holidays: Map<int, Seq<char>>,
    from: int,
    to: int,
) -> Result<Seq<NewWeek>, CalendarError>
    decreases to - from + 1,
{
    if to < from {
        Ok(Seq::empty())
    } else {
        match rows_for_years(store, holidays, from, to - 1) {
            Err(e) => Err(e),
            Ok(rows) => match span_of(store, holidays, to) {
                Err(e) => Err(e),
                Ok(span) => Ok(rows + year_rows(holidays, span.0, span.1)),
            },
        }
    }
}

/// Label of week `week` of ISO year `year` among `rows`: that of the last row for the
/// week, or 0 where no row is for it.
pub open spec fn label_of(rows: Seq<NewWeek>, year: int, week: int) -> int
    decreases rows.len(),
{
    if rows.len() == 0 {
        0
    } else if rows.last().year == year && rows.last().week_of_year == week {
        rows.last().type_of_week as int
    } else {
        label_of(rows.drop_last(), year, week)
    }
}

/// State of the week table after populating it through school year `year`: the rows
/// and the last school year covered.
pub open spec fn populated(
    rows: Seq<NewWeek>,
    covered: int,
    store: Map<int, Seq<char>>,
    holidays: Map<int, Seq<char>>,
    year: int,
) -> Result<(Seq<NewWeek>, int), CalendarError> {
    if year <= covered {
        Ok((rows, covered))
    } else {
        match rows_for_years(store, holidays, covered + 1, year) {
            Ok(added) => Ok((rows + added, year)),
            Err(e) => Err(e),
        }
    }
}

/// Days that are no working days can be skipped when listing working days.
proof fn lemma_skip(holidays: Map<int, Seq<char>>, a: int, b: int, to: int)
    requires
        a <= b,
        forall|k: int| a <= k < b ==> !is_workday(holidays, k),
    ensures
        workdays_in(holidays, a, to) == workdays_in(holidays, b, to),
    decreases b - a,
{
    if a < b {
        lemma_skip(holidays, a + 1, b, to);
        assert(!is_workday(holidays, a));
        if a > to {
            assert(workdays_in(holidays, a + 1, to) == Seq::<int>::empty());
        }
    }
}

/// The backward search only goes back.
proof fn lemma_back_search_below(holidays: Map<int, Seq<char>>, day: int, steps: nat)
    ensures
        back_search(holidays, day, steps) matches Some(c) ==> c < day,
    decreases steps,
{
    if steps > 0 {
        lemma_back_search_below(holidays, back_step(day), (steps - 1) as nat);
    }
}

/// The last school day of a school year comes before January 1 two years on.
proof fn lemma_span_before(store: Map<int, Seq<char>>, holidays: Map<int, Seq<char>>, year: int)
    requires
        MIN_YEAR <= year <= 9997,
    ensures
        span_of(store, holidays, year) matches Ok(span) ==> span.1 < year_start(year + 2)
            && year_start(year + 2) <= LAST_NAVIGABLE,
{
    if let Some(t) = summer_start(store, year + 1) {
        assert(crate::holidays::is_first_titled_in(
            store,
            crate::school_year::SUMMER_HOLIDAY@,
            year_start(year + 1),
            year_start(year + 2),
            Some(t),
        ));
        lemma_back_search_below(holidays, t, MAX_BACK_STEPS as nat);
    }
    lemma_year_start_grows(year + 2, 9999);
}

/// The rows through `to` are those through the year before, and those of `to`.
proof fn lemma_rows_next(
    store: Map<int, Seq<char>>,
    holidays: Map<int, Seq<char>>,
    from: int,
    to: int,
    prev: Seq<NewWeek>,
)
    requires
        from <= to,
        rows_for_years(store, holidays, from, to - 1) == Ok::<Seq<NewWeek>, CalendarError>(prev),
    ensures
        rows_for_years(store, holidays, from, to) == match span_of(store, holidays, to) {
            Err(e) => Err(e),
            Ok(span) => Ok::<Seq<NewWeek>, CalendarError>(
                prev + year_rows(holidays, span.0, span.1),
            ),
        },
{
}

/// Once a year's rows fail, so do those of every range that takes it in.
proof fn lemma_error_stays(
    store: Map<int, Seq<char>>,
    holidays: Map<int, Seq<char>>,
    from: int,
    mid: int,
    to: int,
)
    requires
        from <= mid <= to,
        rows_for_years(store, holidays, from, mid) is Err,
    ensures
        rows_for_years(store, holidays, from, to) == rows_for_years(store, holidays, from, mid),
    decreases to - mid,
{
    if mid < to {
        lemma_error_stays(store, holidays, from, mid, to - 1);
    }
}

/// Append to `out` the rows of the school year from `first` to `last`.
fn rows_of_year(cache: &HolidayCache, first: Date, last: Date, out: &mut Vec<NewWeek>)
    requires
        cache.wf(),
        is_workday(cache@, first@),
        last@ <= LAST_NAVIGABLE,
    ensures
        final(out)@ == old(out)@ + year_rows(cache@, first@, last@),
{
    let ghost start = out@;
    let mut type_of_week: i32 = 0;
    let (_, first_week) = first.iso_week();
    let mut prev_week: u32 = first_week - 1;
    let mut day = first;
    while day.days() <= last.days()
        invariant
            cache.wf(),
            last@ <= LAST_NAVIGABLE,
            0 <= type_of_week < 4,
            day@ > last@ || is_workday(cache@, day@),
            day@ >= first@,
            start + year_rows(cache@, first@, last@) == out@ + week_rows(
                workdays_in(cache@, day@, last@),
                prev_week as int,
                type_of_week as int,
            ),
        decreases if day@ <= last@ {
            last@ + 1 - day@
        } else {
            0
        },
    {
        let ghost rest = workdays_in(cache@, day@ + 1, last@);
        let ghost before = out@;
        let ghost label = type_of_week as int;
        assert(workdays_in(cache@, day@, last@) == seq![day@] + rest);
        assert((seq![day@] + rest).drop_first() =~= rest);
        let (_, week) = day.iso_week();
        if week != prev_week {
            prev_week = week;
            out.push(NewWeek::new(day, type_of_week));
            type_of_week = (type_of_week + 1) % 4;
            assert(out@ + week_rows(rest, week as int, type_of_week as int) =~= before + (seq![
                week_row(day@, label)] + week_rows(rest, week as int, (label + 1) % 4)));
        }
        let next = next_schoolday(cache, day);
        proof {
            lemma_skip(cache@, day@ + 1, next@, last@);
        }
        day = next;
    }
    assert(workdays_in(cache@, day@, last@) == Seq::<int>::empty());
    assert(out@ =~= start + year_rows(cache@, first@, last@));
}

/// Each row of a run of school days gets the label after that of the row before.
proof fn lemma_week_rows_labels(days: Seq<int>, prev_week: int, label: int)
    requires
        0 <= label < 4,
    ensures
        forall|i: int|
            0 <= i < week_rows(days, prev_week, label).len() ==> #[trigger] week_rows(
                days,
                prev_week,
                label,
            )[i].type_of_week == (label + i) % 4,
    decreases days.len(),
{
    if days.len() > 0 {
        let week = iso_week_of(days[0]).1;
        if week != prev_week {
            lemma_week_rows_labels(days.drop_first(), week, (label + 1) % 4);
            let rest = week_rows(days.drop_first(), week, (label + 1) % 4);
            assert forall|i: int|
                0 <= i < week_rows(days, prev_week, label).len() implies #[trigger] week_rows(
                    days,
                    prev_week,
                    label,
                )[i].type_of_week == (label + i) % 4 by {
                assert(week_rows(days, prev_week, label) == seq![week_row(days[0], label)] + rest);
                if i > 0 {
                    assert(week_rows(days, prev_week, label)[i] == rest[i - 1]);
                    assert(((label + 1) % 4 + (i - 1)) % 4 == (label + i) % 4);
                } else {
                    assert(week_rows(days, prev_week, label)[0] == week_row(days[0], label));
                    assert(week_row(days[0], label).type_of_week == label);
                }
            }
        } else {
            lemma_week_rows_labels(days.drop_first(), prev_week, label);
            assert(week_rows(days, prev_week, label) == week_rows(days.drop_first(), prev_week, label));
        }
    }
}

/// The weeks of a school year carry the labels 0, 1, 2, 3, 0, 1, ... in date order:
/// each label follows the one before it in that cycle, so no two weeks in a row share
/// one.
pub proof fn lemma_rotation_cycles(holidays: Map<int, Seq<char>>, first: int, last: int)
    ensures
        forall|i: int|
            0 <= i < year_rows(holidays, first, last).len() ==> #[trigger] year_rows(
                holidays,
                first,
                last,
            )[i].type_of_week == i % 4,
        forall|i: int|
            0 < i < year_rows(holidays, first, last).len() ==> #[trigger] year_rows(
                holidays,
                first,
                last,
            )[i].type_of_week == (year_rows(holidays, first, last)[i - 1].type_of_week + 1) % 4
                && year_rows(holidays, first, last)[i].type_of_week != year_rows(
                holidays,
                first,
                last,
            )[i - 1].type_of_week,
{
    let rows = year_rows(holidays, first, last);
    lemma_week_rows_labels(workdays_in(holidays, first, last), iso_week_of(first).1 - 1, 0);
    assert forall|i: int| 0 < i < rows.len() implies #[trigger] rows[i].type_of_week == (rows[i
        - 1].type_of_week + 1) % 4 && rows[i].type_of_week != rows[i - 1].type_of_week by {
        assert(rows[i - 1].type_of_week == (i - 1) % 4);
        assert(rows[i].type_of_week == i % 4);
    }
}

/// Populating the table a second time through the same school year changes nothing.
pub proof fn lemma_populate_twice(
    rows: Seq<NewWeek>,
    covered: int,
    store: Map<int, Seq<char>>,
    holidays: Map<int, Seq<char>>,
    year: int,
)
    requires
        populated(rows, covered, store, holidays, year) is Ok,
    ensures
        ({
            let once = populated(rows, covered, store, holidays, year)->Ok_0;
            populated(once.0, once.1, store, holidays, year) == Ok::<
                (Seq<NewWeek>, int),
                CalendarError,
            >(once)
        }),
{
}

/// Mapping from ISO weeks to rotation labels, and the last school year covered.
pub struct TypeOfWeek {
    weeks: Vec<NewWeek>,
    covered: i32,
}

impl View for TypeOfWeek {
    type V = (Seq<NewWeek>, int);

    closed spec fn view(&self) -> (Seq<NewWeek>, int) {
        (self.weeks@, self.covered as int)
    }
}

impl TypeOfWeek {
    pub closed spec fn wf(&self) -> bool {
        MIN_YEAR - 1 <= self.covered < i32::MAX
    }

    /// The table holding `rows`. The last row of a school year falls in the calendar
    /// year after the one it started in, so the school years up to the year before the
    /// latest year of a row count as covered; with no rows, none from `MIN_YEAR` on.
    pub fn new(rows: Vec<NewWeek>) -> (r: TypeOfWeek)
        ensures
            r.wf(),
            r@.0 == rows@,
            r@.1 >= MIN_YEAR - 1,
            forall|i: int| 0 <= i < rows@.len() ==> r@.1 >= rows@[i].year - 1,
            r@.1 == MIN_YEAR - 1 || exists|i: int|
                0 <= i < rows@.len() && r@.1 == rows@[i].year - 1,
    {
        let mut covered: i32 = MIN_YEAR - 1;
        let mut i: usize = 0;
        while i < rows.len()
            invariant
                0 <= i <= rows.len(),
                MIN_YEAR - 1 <= covered < i32::MAX,
                forall|j: int| 0 <= j < i ==> covered >= rows@[j].year - 1,
                covered == MIN_YEAR - 1 || exists|j: int|
                    0 <= j < i && covered == rows@[j].year - 1,
            decreases rows.len() - i,
        {
            let year = rows[i].year;
            if year > covered + 1 {
                covered = year - 1;
            }
            i = i + 1;
        }
        TypeOfWeek { weeks: rows, covered }
    }

    /// The label of the week that `day` falls in. A week that no row covers gets
    /// label 0.
    pub fn get(&self, day: Date) -> (r: i32)
        ensures
            r as int == label_of(self@.0, iso_week_of(day@).0, iso_week_of(day@).1),
    {
        let (year, week) = day.iso_week();
        let mut label: i32 = 0;
        let mut i: usize = 0;
        while i < self.weeks.len()
            invariant
                0 <= i <= self.weeks.len(),
                year as int == iso_week_of(day@).0,
                week as int == iso_week_of(day@).1,
                label as int == label_of(self.weeks@.take(i as int), year as int, week as int),
            decreases self.weeks.len() - i,
        {
            let row = self.weeks[i];
            assert(self.weeks@.take(i + 1).drop_last() =~= self.weeks@.take(i as int));
            if row.year == year && row.week_of_year as i64 == week as i64 {
                label = row.type_of_week;
            }
            i = i + 1;
        }
        assert(self.weeks@.take(self.weeks.len() as int) =~= self.weeks@);
        label
    }

    /// Extend the table through the school year starting in `year`: add the rows of
    /// each school year after the last one covered, up to `year`, and return them. On
    /// an error the table stays as it was.
    pub fn populate_table(&mut self, store: &HolidayStore, cache: &HolidayCache, year: i32) -> (r:
        Result<Vec<NewWeek>, CalendarError>)
        requires
            old(self).wf(),
            store.wf(),
            cache.wf(),
            year <= 9997,
        ensures
            final(self).wf(),
            match populated(old(self)@.0, old(self)@.1, store@, cache@, year as int) {
                Ok(table) => r matches Ok(added) && final(self)@ == table && table.0 == old(
                    self,
                )@.0 + added@,
                Err(e) => r == Err::<Vec<NewWeek>, CalendarError>(e) && final(self)@ == old(self)@,
            },
    {
        if year <= self.covered {
            assert(old(self)@.0 + Seq::<NewWeek>::empty() =~= old(self)@.0);
            return Ok(Vec::new());
        }
        let from: i32 = self.covered + 1;
        let mut new_weeks: Vec<NewWeek> = Vec::new();
        let mut y: i32 = from;
        while y <= year
            invariant
                MIN_YEAR <= from <= y <= year + 1,
                year <= 9997,
                *self == *old(self),
                old(self).wf(),
                from as int == old(self)@.1 + 1,
                year > old(self)@.1,
                store.wf(),
                cache.wf(),
                rows_for_years(store@, cache@, from as int, y - 1) == Ok::<
                    Seq<NewWeek>,
                    CalendarError,
                >(new_weeks@),
            decreases year + 1 - y,
        {
            proof {
                lemma_rows_next(store@, cache@, from as int, y as int, new_weeks@);
            }
            let span = match school_year_span(store, cache, y) {
                Ok(span) => span,
                Err(e) => {
                    proof {
                        lemma_error_stays(store@, cache@, from as int, y as int, year as int);
                    }
                    return Err(e);
                },
            };
            proof {
                lemma_span_before(store@, cache@, y as int);
            }
            rows_of_year(cache, span.first_day, span.last_day, &mut new_weeks);
            y = y + 1;
        }
        let mut i: usize = 0;
        while i < new_weeks.len()
            invariant
                0 <= i <= new_weeks.len(),
                self.weeks@ == old(self)@.0 + new_weeks@.take(i as int),
            decreases new_weeks.len() - i,
        {
            self.weeks.push(new_weeks[i]);
            assert(new_weeks@.take(i + 1) =~= new_weeks@.take(i as int).push(new_weeks@[i as int]));
            i = i + 1;
        }
        assert(new_weeks@.take(new_weeks.len() as int) =~= new_weeks@);
        self.covered = year;
        Ok(new_weeks)
    }

    /// The rows of the table.
    pub fn rows(&self) -> (r: &Vec<NewWeek>)
        ensures
            r@ == self@.0,
    {
        &self.weeks
    }

    /// The last school year that the table covers.
    pub fn covered_through(&self) -> (r: i32)
        ensures
            r as int == self@.1,
    {
        self.covered
    }
}

/// What type is the week a given day belongs to?
pub fn get_type_of_week(table: &TypeOfWeek, day: Date) -> (r: i32)
    ensures
        r as int == label_of(table@.0, iso_week_of(day@).0, iso_week_of(day@).1),
{
    table.get(day)
}

/// Name of a rotation label, as a report prints it: "A" to "D".
pub fn type_of_week_name(type_of_week: i32) -> (r: &'static str)
    requires
        0 <= type_of_week < 4,
    ensures
        type_of_week == 0 ==> r@ == "A"@,
        type_of_week == 1 ==> r@ == "B"@,
        type_of_week == 2 ==> r@ == "C"@,
        type_of_week == 3 ==> r@ == "D"@,
{
    if type_of_week == 0 {
        "A"
    } else if type_of_week == 1 {
        "B"
    } else if type_of_week == 2 {
        "C"
    } else {
        "D"
    }
}

} // verus!
