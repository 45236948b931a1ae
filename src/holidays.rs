//! Holiday records and the store that holds at most one of them per date.
use vstd::prelude::*;

use crate::cache::{HolidayCache, FIRST_NAVIGABLE, LAST_NAVIGABLE};
use crate::date::{day_number, day_of, Date, MAX_DAY};
use crate::error::CalendarError;
use crate::school_year::SUMMER_HOLIDAY;
use crate::upstream::{
    general_records, read_general_holidays, read_school_holidays, school_records, GeneralHoliday,
    SchoolHoliday,
};

verus! {

/// One non-working day: a public or a school holiday.
#[derive(Debug)]
pub struct HolidayRecord {
    pub date: Date,
    pub title: String,
}

impl HolidayRecord {
    /// A record equal to this one.
    pub fn duplicate(&self) -> (r: HolidayRecord)
        ensures
            r.date == self.date,
            r.title@ == self.title@,
    {
        HolidayRecord { date: self.date, title: self.title.clone() }
    }
}

/// Day number and title of each record.
pub open spec fn record_views(records: Seq<HolidayRecord>) -> Seq<(int, Seq<char>)> {
    records.map_values(|r: HolidayRecord| (r.date@, r.title@))
}

/// Map of dates to titles that results from writing `records` in order into `m`, each
/// record replacing what stood at its date.
pub open spec fn upserted(m: Map<int, Seq<char>>, records: Seq<(int, Seq<char>)>) -> Map<
    int,
    Seq<char>,
>
    decreases records.len(),
{
    if records.len() == 0 {
        m
    } else {
        let last = records.last();
        upserted(m, records.drop_last()).insert(last.0, last.1)
    }
}

/// `n` is a date of `m` with title `title` in the window `[lo, hi)`.
pub open spec fn titled_in(
    m: Map<int, Seq<char>>,
    title: Seq<char>,
    lo: int,
    hi: int,
    n: int,
) -> bool {
    m.contains_key(n) && m[n] == title && lo <= n < hi
}

/// The latest date of `m` with title `title` in `[lo, hi)`, if there is one.
pub open spec fn is_last_titled_in(
    m: Map<int, Seq<char>>,
    title: Seq<char>,
    lo: int,
    hi: int,
    r: Option<int>,
) -> bool {
    match r {
        Some(n) => titled_in(m, title, lo, hi, n) && forall|k: int|
            #[trigger] titled_in(m, title, lo, hi, k) ==> k <= n,
        None => forall|k: int| !#[trigger] titled_in(m, title, lo, hi, k),
    }
}

/// The earliest date of `m` with title `title` in `[lo, hi)`, if there is one.
pub open spec fn is_first_titled_in(
    m: Map<int, Seq<char>>,
    title: Seq<char>,
    lo: int,
    hi: int,
    r: Option<int>,
) -> bool {
    match r {
        Some(n) => titled_in(m, title, lo, hi, n) && forall|k: int|
            #[trigger] titled_in(m, title, lo, hi, k) ==> n <= k,
        None => forall|k: int| !#[trigger] titled_in(m, title, lo, hi, k),
    }
}

/// The table of holidays: at most one record per date.
pub struct HolidayStore {
    records: Vec<HolidayRecord>,
}

impl View for HolidayStore {
    type V = Map<int, Seq<char>>;

    /// Each stored date and its title.
    closed spec fn view(&self) -> Map<int, Seq<char>> {
        Map::new(
            |n: int| exists|j: int| 0 <= j < self.records@.len() && self.records@[j].date@ == n,
            |n: int|
                self.records@[choose|j: int|
                    0 <= j < self.records@.len() && self.records@[j].date@ == n].title@,
        )
    }
}

impl HolidayStore {
    /// No two records share a date.
    pub closed spec fn wf(&self) -> bool {
        forall|i: int, j: int|
            0 <= i < self.records@.len() && 0 <= j < self.records@.len() && i != j
                ==> self.records@[i].date@ != self.records@[j].date@
    }

    /// The records in the order in which they are stored.
    pub closed spec fn records_view(&self) -> Seq<HolidayRecord> {
        self.records@
    }

    /// No other stored record has the date of record `i`.
    pub proof fn lemma_unique(&self, i: int)
        requires
            self.wf(),
            0 <= i < self.records_view().len(),
        ensures
            forall|j: int|
                0 <= j < self.records_view().len() && j != i ==> #[trigger] self.records_view()[j].date@
                    != self.records_view()[i].date@,
    {
    }

    /// Each stored record stands in the map under its date.
    pub proof fn lemma_record_in_map(&self, i: int)
        requires
            self.wf(),
            0 <= i < self.records_view().len(),
        ensures
            self@.contains_key(self.records_view()[i].date@),
            self@[self.records_view()[i].date@] == self.records_view()[i].title@,
    {
        let n = self.records@[i].date@;
        assert(self@.contains_key(n));
        let j = choose|j: int| 0 <= j < self.records@.len() && self.records@[j].date@ == n;
        assert(i == j);
    }

    /// Each date of the map comes from a stored record.
    pub proof fn lemma_map_has_record(&self, n: int)
        requires
            self.wf(),
            self@.contains_key(n),
        ensures
            exists|j: int|
                0 <= j < self.records_view().len() && #[trigger] self.records_view()[j].date@ == n,
            forall|j: int|
                0 <= j < self.records_view().len() && #[trigger] self.records_view()[j].date@ == n
                    ==> self@[n] == self.records_view()[j].title@,
    {
        let w = choose|j: int| 0 <= j < self.records@.len() && self.records@[j].date@ == n;
        assert(self.records_view()[w].date@ == n);
        assert forall|j: int|
            0 <= j < self.records_view().len() && #[trigger] self.records_view()[j].date@
                == n implies self@[n] == self.records_view()[j].title@ by {
            self.lemma_record_in_map(j);
        }
    }

    /// An empty store.
    pub fn new() -> (r: HolidayStore)
        ensures
            r.wf(),
            r@ == Map::<int, Seq<char>>::empty(),
    {
        let r = HolidayStore { records: Vec::new() };
        assert(r@ =~= Map::<int, Seq<char>>::empty());
        r
    }

    /// The stored records.
    pub fn records(&self) -> (r: &Vec<HolidayRecord>)
        ensures
            r@ == self.records_view(),
    {
        &self.records
    }

    /// Number of stored records, one per date.
    pub fn len(&self) -> (r: usize)
        requires
            self.wf(),
        ensures
            r == self@.len(),
    {
        proof {
            self.lemma_len();
        }
        self.records.len()
    }

    proof fn lemma_len(&self)
        requires
            self.wf(),
        ensures
            self@.dom().finite(),
            self@.len() == self.records@.len(),
    {
        let dates = self.records@.map_values(|r: HolidayRecord| r.date@);
        assert(self@.dom() =~= dates.to_set()) by {
            assert forall|n: int| self@.contains_key(n) implies dates.to_set().contains(n) by {
                let j = choose|j: int| 0 <= j < self.records@.len() && self.records@[j].date@ == n;
                assert(dates[j] == n);
            }
            assert forall|n: int| dates.to_set().contains(n) implies self@.contains_key(n) by {
                let j = choose|j: int| 0 <= j < dates.len() && dates[j] == n;
                assert(self.records@[j].date@ == n);
            }
        }
        assert(dates.no_duplicates());
        dates.unique_seq_to_set();
    }

    /// The latest stored date with title `title` in the window `[lo, hi)` of day numbers.
    pub fn last_titled_in(&self, title: &String, lo: i32, hi: i32) -> (r: Option<Date>)
        requires
            self.wf(),
        ensures
            is_last_titled_in(self@, title@, lo as int, hi as int, day_of(r)),
    {
        let mut best: Option<Date> = None;
        let mut i: usize = 0;
        while i < self.records.len()
            invariant
                self.wf(),
                0 <= i <= self.records.len(),
                best matches Some(b) ==> exists|j: int|
                    0 <= j < i && #[trigger] self.records@[j].date == b && self.records@[j].title@
                        == title@ && lo <= b@ < hi,
                forall|j: int|
                    0 <= j < i && #[trigger] self.records@[j].title@ == title@ && lo
                        <= self.records@[j].date@ < hi ==> (best matches Some(b) && self.records@[j].date@
                        <= b@),
            decreases self.records.len() - i,
        {
            let n = self.records[i].date.days();
            if self.records[i].title == *title && lo <= n && n < hi {
                let better = match best {
                    Some(b) => b.days() < n,
                    None => true,
                };
                if better {
                    best = Some(self.records[i].date);
                }
            }
            i = i + 1;
        }
        proof {
            self.lemma_window(title@, lo as int, hi as int, day_of(best), true);
        }
        best
    }

    /// The earliest stored date with title `title` in the window `[lo, hi)` of day numbers.
    pub fn first_titled_in(&self, title: &String, lo: i32, hi: i32) -> (r: Option<Date>)
        requires
            self.wf(),
        ensures
            is_first_titled_in(self@, title@, lo as int, hi as int, day_of(r)),
    {
        let mut best: Option<Date> = None;
        let mut i: usize = 0;
        while i < self.records.len()
            invariant
                self.wf(),
                0 <= i <= self.records.len(),
                best matches Some(b) ==> exists|j: int|
                    0 <= j < i && #[trigger] self.records@[j].date == b && self.records@[j].title@
                        == title@ && lo <= b@ < hi,
                forall|j: int|
                    0 <= j < i && #[trigger] self.records@[j].title@ == title@ && lo
                        <= self.records@[j].date@ < hi ==> (best matches Some(b) && b@
                        <= self.records@[j].date@),
            decreases self.records.len() - i,
        {
            let n = self.records[i].date.days();
            if self.records[i].title == *title && lo <= n && n < hi {
                let better = match best {
                    Some(b) => n < b.days(),
                    None => true,
                };
                if better {
                    best = Some(self.records[i].date);
                }
            }
            i = i + 1;
        }
        proof {
            self.lemma_window(title@, lo as int, hi as int, day_of(best), false);
        }
        best
    }

    /// Carries what a scan of all records found over to the map of the store.
    proof fn lemma_window(&self, title: Seq<char>, lo: int, hi: int, best: Option<int>, latest: bool)
        requires
            self.wf(),
            best matches Some(b) ==> exists|j: int|
                0 <= j < self.records@.len() && #[trigger] self.records@[j].date@ == b
                    && self.records@[j].title@ == title && lo <= b < hi,
            forall|j: int|
                0 <= j < self.records@.len() && #[trigger] self.records@[j].title@ == title && lo
                    <= self.records@[j].date@ < hi ==> (best matches Some(b) && (if latest {
                    self.records@[j].date@ <= b
                } else {
                    b <= self.records@[j].date@
                })),
        ensures
            latest ==> is_last_titled_in(self@, title, lo, hi, best),
            !latest ==> is_first_titled_in(self@, title, lo, hi, best),
    {
        if let Some(b) = best {
            let j = choose|j: int|
                0 <= j < self.records@.len() && #[trigger] self.records@[j].date@ == b
                    && self.records@[j].title@ == title && lo <= b < hi;
            self.lemma_record_in_map(j);
        }
        assert forall|k: int| #[trigger] titled_in(self@, title, lo, hi, k) implies (best matches Some(
            b,
        ) && (if latest {
            k <= b
        } else {
            b <= k
        })) by {
            self.lemma_map_has_record(k);
            let j = choose|j: int| 0 <= j < self.records@.len() && #[trigger] self.records@[j].date@ == k;
            assert(self.records@[j].title@ == title);
        }
    }

    /// The latest stored date with title `title`, if there is one.
    pub fn latest_known_date(&self, title: &String) -> (r: Option<Date>)
        requires
            self.wf(),
        ensures
            is_last_titled_in(self@, title@, 1, MAX_DAY + 1, day_of(r)),
    {
        self.last_titled_in(title, 1, MAX_DAY + 1)
    }

    /// Write `record`, replacing the record that has the same date, if any.
    pub fn upsert(&mut self, record: HolidayRecord)
        requires
            old(self).wf(),
        ensures
            final(self).wf(),
            final(self)@ == old(self)@.insert(record.date@, record.title@),
    {
        let ghost before = self.records@;
        let ghost prev = *self;
        let mut i: usize = 0;
        while i < self.records.len()
            invariant
                self.wf(),
                self.records@ == before,
                prev.records@ == before,
                prev == *old(self),
                0 <= i <= self.records.len(),
                forall|j: int| 0 <= j < i ==> #[trigger] before[j].date@ != record.date@,
            decreases self.records.len() - i,
        {
            if self.records[i].date == record.date {
                proof {
                    record.date.lemma_view_injective(self.records@[i as int].date);
                }
                self.records.set(i, record);
                proof {
                    assert(self.records@ =~= prev.records@.update(i as int, record));
                    self.lemma_replaced(prev, i as int);
                    assert(self.records@[i as int] == record);
                }
                return;
            }
            proof {
                record.date.lemma_view_injective(self.records@[i as int].date);
            }
            i = i + 1;
        }
        self.records.push(record);
        proof {
            assert(self.records@.drop_last() =~= before);
            self.lemma_appended(prev);
        }
    }

    /// Write each of `records` in order, each replacing the record with its date.
    pub fn upsert_holidays(&mut self, records: &Vec<HolidayRecord>)
        requires
            old(self).wf(),
        ensures
            final(self).wf(),
            final(self)@ == upserted(old(self)@, record_views(records@)),
    {
        let mut i: usize = 0;
        while i < records.len()
            invariant
                self.wf(),
                0 <= i <= records.len(),
                self@ == upserted(old(self)@, record_views(records@.take(i as int))),
            decreases records.len() - i,
        {
            self.upsert(records[i].duplicate());
            assert(record_views(records@.take(i + 1)).drop_last() =~= record_views(
                records@.take(i as int),
            ));
            i = i + 1;
        }
        assert(records@.take(records.len() as int) =~= records@);
    }

    /// All stored records.
    pub fn load_all(&self) -> (r: Vec<HolidayRecord>)
        requires
            self.wf(),
        ensures
            record_views(r@) == record_views(self.records_view()),
            r@.len() == self@.len(),
            forall|i: int|
                0 <= i < r@.len() ==> self@.contains_key(#[trigger] r@[i].date@) && self@[r@[i].date@]
                    == r@[i].title@,
            forall|n: int| #[trigger]
                self@.contains_key(n) ==> exists|i: int| 0 <= i < r@.len() && r@[i].date@ == n,
    {
        let mut out: Vec<HolidayRecord> = Vec::new();
        let mut i: usize = 0;
        while i < self.records.len()
            invariant
                0 <= i <= self.records.len(),
                out@.len() == i,
                forall|j: int|
                    0 <= j < i ==> #[trigger] out@[j].date == self.records@[j].date
                        && out@[j].title@ == self.records@[j].title@,
            decreases self.records.len() - i,
        {
            out.push(self.records[i].duplicate());
            i = i + 1;
        }
        assert(record_views(out@) =~= record_views(self.records@));
        proof {
            self.lemma_len();
            assert forall|i: int| 0 <= i < out@.len() implies self@.contains_key(
                #[trigger] out@[i].date@,
            ) && self@[out@[i].date@] == out@[i].title@ by {
                self.lemma_record_in_map(i);
            }
            assert forall|n: int| #[trigger] self@.contains_key(n) implies exists|i: int|
                0 <= i < out@.len() && out@[i].date@ == n by {
                self.lemma_map_has_record(n);
                let j = choose|j: int|
                    0 <= j < self.records_view().len() && #[trigger] self.records_view()[j].date@ == n;
                assert(out@[j].date@ == n);
            }
        }
        out
    }

    /// Two writes of records with the same date leave exactly one record for that
    /// date, and it holds the title of the later write.
    pub proof fn lemma_upsert_twice(
        before: HolidayStore,
        after: HolidayStore,
        first: HolidayRecord,
        second: HolidayRecord,
    )
        requires
            before.wf(),
            after.wf(),
            first.date == second.date,
            after@ == before@.insert(first.date@, first.title@).insert(second.date@, second.title@),
        ensures
            after@ == before@.insert(second.date@, second.title@),
            after@[second.date@] == second.title@,
            exists|i: int|
                0 <= i < after.records_view().len() && #[trigger] after.records_view()[i].date
                    == second.date && after.records_view()[i].title@ == second.title@,
            forall|i: int, j: int|
                0 <= i < after.records_view().len() && 0 <= j < after.records_view().len()
                    && #[trigger] after.records_view()[i].date == second.date
                    && #[trigger] after.records_view()[j].date == second.date ==> i == j,
    {
        assert(after@ =~= before@.insert(second.date@, second.title@));
        after.lemma_map_has_record(second.date@);
        let i = choose|i: int|
            0 <= i < after.records_view().len() && #[trigger] after.records_view()[i].date@
                == second.date@;
        second.date.lemma_view_injective(after.records_view()[i].date);
        assert forall|i: int, j: int|
            0 <= i < after.records_view().len() && 0 <= j < after.records_view().len()
                && #[trigger] after.records_view()[i].date == second.date
                && #[trigger] after.records_view()[j].date == second.date implies i == j by {
            if i != j {
                after.lemma_unique(i);
            }
        }
    }

    proof fn lemma_replaced(&self, prev: HolidayStore, i: int)
        requires
            prev.wf(),
            0 <= i < prev.records@.len(),
            self.records@ == prev.records@.update(i, self.records@[i]),
            prev.records@[i].date@ == self.records@[i].date@,
        ensures
            self.wf(),
            self@ == prev@.insert(self.records@[i].date@, self.records@[i].title@),
    {
        let before = prev.records@;
        let s = self.records@;
        let m = prev@;
        let d = s[i].date@;
        assert forall|n: int| #[trigger] self@.contains_key(n) == m.insert(d, s[i].title@).contains_key(n) by {
            if self@.contains_key(n) {
                let j = choose|j: int| 0 <= j < s.len() && s[j].date@ == n;
                if j != i {
                    assert(before[j].date@ == n);
                }
            }
            if m.contains_key(n) {
                let j = choose|j: int| 0 <= j < before.len() && before[j].date@ == n;
                assert(s[j].date@ == n);
            }
            if n == d {
                assert(s[i].date@ == n);
            }
        }
        assert forall|n: int| #[trigger] self@.contains_key(n) implies self@[n] == m.insert(d, s[i].title@)[n] by {
            let j = choose|j: int| 0 <= j < s.len() && s[j].date@ == n;
            if n == d {
                assert(j == i);
            } else {
                assert(before[j].date@ == n);
                let k = choose|k: int| 0 <= k < before.len() && before[k].date@ == n;
                assert(k == j);
            }
        }
        assert(self@ =~= m.insert(d, s[i].title@));
    }

    proof fn lemma_appended(&self, prev: HolidayStore)
        requires
            prev.wf(),
            prev.records@.len() + 1 == self.records@.len(),
            prev.records@ == self.records@.drop_last(),
            forall|j: int|
                0 <= j < prev.records@.len() ==> #[trigger] prev.records@[j].date@
                    != self.records@.last().date@,
        ensures
            self.wf(),
            self@ == prev@.insert(self.records@.last().date@, self.records@.last().title@),
    {
        let before = prev.records@;
        let s = self.records@;
        let i = before.len() as int;
        let m = prev@;
        let d = s[i].date@;
        assert forall|a: int, b: int|
            0 <= a < s.len() && 0 <= b < s.len() && a != b implies s[a].date@ != s[b].date@ by {
            if a < i && b < i {
                assert(before[a] == s[a] && before[b] == s[b]);
            } else if a < i {
                assert(before[a] == s[a]);
            } else {
                assert(before[b] == s[b]);
            }
        }
        assert forall|n: int| #[trigger] self@.contains_key(n) == m.insert(d, s[i].title@).contains_key(n) by {
            if self@.contains_key(n) {
                let j = choose|j: int| 0 <= j < s.len() && s[j].date@ == n;
                if j != i {
                    assert(before[j].date@ == n);
                }
            }
            if m.contains_key(n) {
                let j = choose|j: int| 0 <= j < before.len() && before[j].date@ == n;
                assert(s[j].date@ == n);
            }
            if n == d {
                assert(s[i].date@ == n);
            }
        }
        assert forall|n: int| #[trigger] self@.contains_key(n) implies self@[n] == m.insert(d, s[i].title@)[n] by {
            let j = choose|j: int| 0 <= j < s.len() && s[j].date@ == n;
            if n == d {
                if j != i {
                    assert(before[j].date@ == d);
                }
            } else {
                assert(before[j] == s[j]);
                let k = choose|k: int| 0 <= k < before.len() && before[k].date@ == n;
                assert(k == j);
            }
        }
        assert(self@ =~= m.insert(d, s[i].title@));
    }
}

/// First year of holiday data that a refresh fetches when the store knows no summer
/// break.
pub const FIRST_HOLIDAY_YEAR: i32 = 2017;

/// All stored holidays.
pub fn get(store: &HolidayStore) -> (r: Vec<HolidayRecord>)
    requires
        store.wf(),
    ensures
        record_views(r@) == record_views(store.records_view()),
        r@.len() == store@.len(),
        forall|i: int|
            0 <= i < r@.len() ==> store@.contains_key(#[trigger] r@[i].date@) && store@[r@[i].date@]
                == r@[i].title@,
        forall|n: int| #[trigger]
            store@.contains_key(n) ==> exists|i: int| 0 <= i < r@.len() && r@[i].date@ == n,
{
    store.load_all()
}

/// Whether the holiday data has run out by `today`: every stored date lies before it.
/// An empty store counts as reaching up to January 1 of `FIRST_HOLIDAY_YEAR`.
pub fn needs_refresh(store: &HolidayStore, today: Date) -> (r: bool)
    requires
        store.wf(),
    ensures
        r == ((forall|k: int| #[trigger] store@.contains_key(k) ==> k < today@) && ((exists|k: int|
            #[trigger] store@.contains_key(k)) || day_number(FIRST_HOLIDAY_YEAR as int, 1, 1)
            < today@)),
{
    let records = store.records();
    let t = today.days();
    let mut i: usize = 0;
    while i < records.len()
        invariant
            store.wf(),
            records@ == store.records_view(),
            t == today@,
            0 <= i <= records.len(),
            forall|j: int| 0 <= j < i ==> #[trigger] records@[j].date@ < t,
        decreases records.len() - i,
    {
        let d = records[i].date.days();
        if d >= t {
            proof {
                store.lemma_record_in_map(i as int);
                assert(store@.contains_key(records@[i as int].date@));
                assert(!(records@[i as int].date@ < today@));
            }
            return false;
        }
        i = i + 1;
    }
    proof {
        assert forall|k: int| #[trigger] store@.contains_key(k) implies k < today@ by {
            store.lemma_map_has_record(k);
        }
    }
    if records.len() > 0 {
        proof {
            store.lemma_record_in_map(0);
        }
        true
    } else {
        proof {
            assert forall|k: int| !#[trigger] store@.contains_key(k) by {
                if store@.contains_key(k) {
                    store.lemma_map_has_record(k);
                }
            }
        }
        Date::from_ymd(FIRST_HOLIDAY_YEAR, 1, 1).days() < t
    }
}

/// The first year that a refresh of the holiday data fetches: the year of the latest
/// stored summer-break day, or `FIRST_HOLIDAY_YEAR` where none is stored.
pub fn refresh_start_year(store: &HolidayStore) -> (r: i32)
    requires
        store.wf(),
    ensures
        is_last_titled_in(store@, SUMMER_HOLIDAY@, 1, MAX_DAY + 1, None) ==> r
            == FIRST_HOLIDAY_YEAR,
        forall|n: int|
            is_last_titled_in(store@, SUMMER_HOLIDAY@, 1, MAX_DAY + 1, Some(n)) ==> day_number(
                r as int,
                1,
                1,
            ) <= n < day_number(r + 1, 1, 1),
{
    let title = SUMMER_HOLIDAY.to_owned();
    let found = store.latest_known_date(&title);
    match found {
        Some(d) => {
            proof {
                assert forall|n: int|
                    is_last_titled_in(store@, SUMMER_HOLIDAY@, 1, MAX_DAY + 1, Some(n)) implies n
                        == d@ by {
                    assert(titled_in(store@, SUMMER_HOLIDAY@, 1, MAX_DAY + 1, n));
                    assert(titled_in(store@, SUMMER_HOLIDAY@, 1, MAX_DAY + 1, d@));
                }
            }
            d.year()
        },
        None => FIRST_HOLIDAY_YEAR,
    }
}

/// Store the holidays of one year, as the two upstream sources give them, and rebuild
/// the cache from the store. Where a date of either source cannot be read, nothing is
/// stored.
pub fn add_holidays_for(
    store: &mut HolidayStore,
    cache: &mut HolidayCache,
    general: &Vec<GeneralHoliday>,
    school: &Vec<SchoolHoliday>,
) -> (r: Result<(), CalendarError>)
    requires
        old(store).wf(),
        old(cache).wf(),
    ensures
        final(store).wf(),
        final(cache).wf(),
        match (general_records(general@), school_records(school@)) {
            (Some(g), Some(s)) => {
                &&& final(store)@ == upserted(upserted(old(store)@, g), s)
                &&& r is Ok <==> forall|n: int| #[trigger]
                    final(store)@.contains_key(n) ==> FIRST_NAVIGABLE <= n <= LAST_NAVIGABLE
                &&& r is Ok ==> final(cache)@ == final(store)@
                &&& r is Err ==> r == Err::<(), CalendarError>(CalendarError::OutOfRange)
                &&& r is Err ==> *final(cache) == *old(cache)
            },
            _ => {
                &&& r == Err::<(), CalendarError>(CalendarError::Parse)
                &&& *final(store) == *old(store)
                &&& *final(cache) == *old(cache)
            },
        },
{
    let general_holidays = match read_general_holidays(general) {
        Ok(v) => v,
        Err(e) => {
            return Err(e);
        },
    };
    let school_holidays = match read_school_holidays(school) {
        Ok(v) => v,
        Err(e) => {
            return Err(e);
        },
    };
    store.upsert_holidays(&general_holidays);
    store.upsert_holidays(&school_holidays);
    cache.rebuild(store)
}

} // verus!
