use timesheet::cache::{is_holiday, next_schoolday, previous_schoolday, HolidayCache};
use timesheet::date::Date;
use timesheet::error::CalendarError;
use timesheet::holidays::{
    add_holidays_for, get, needs_refresh, refresh_start_year, HolidayRecord, HolidayStore,
};
use timesheet::school_year::{first_day_of_school, last_day_of_school, school_year_span};
use timesheet::upstream::{
    capitalize, read_general_holidays, read_school_holidays, GeneralHoliday, SchoolHoliday,
};

fn ymd(y: i32, m: u8, d: u8) -> Date {
    Date::from_ymd(y, m, d)
}

fn range(start: &str, end: &str, name: &str) -> SchoolHoliday {
    SchoolHoliday { start: start.to_string(), end: end.to_string(), name: name.to_string() }
}

fn general(title: &str, date: &str) -> GeneralHoliday {
    GeneralHoliday { title: title.to_string(), date: date.to_string() }
}

fn record(date: Date, title: &str) -> HolidayRecord {
    HolidayRecord { date, title: title.to_string() }
}

/// A store and a cache holding the holidays that `ranges` give.
fn setup(ranges: Vec<SchoolHoliday>) -> (HolidayStore, HolidayCache) {
    let mut store = HolidayStore::new();
    let mut cache = HolidayCache::new();
    add_holidays_for(&mut store, &mut cache, &vec![], &ranges).unwrap();
    (store, cache)
}

#[test]
fn test_populate_holidays_table() {
    let mut store = HolidayStore::new();
    let mut cache = HolidayCache::new();
    let public = vec![general("Tag der Deutschen Einheit", "2017-10-03"), general("Neujahr", "2017-01-01")];
    let school = vec![range("2017-07-17T00:00", "2017-08-30T00:00", "sommerferien")];
    assert_eq!(add_holidays_for(&mut store, &mut cache, &public, &school), Ok(()));
    assert_eq!(store.len(), 2 + 45);
    assert!(is_holiday(&cache, ymd(2017, 10, 3)));
    assert!(is_holiday(&cache, ymd(2017, 8, 30)));
    assert!(!is_holiday(&cache, ymd(2017, 8, 31)));
}

#[test]
fn test_first_schoolday() {
    let (store, cache) = setup(vec![range("2017-07-17T00:00", "2017-08-30T00:00", "sommerferien")]);
    assert_eq!(first_day_of_school(&store, &cache, 2017), Ok(ymd(2017, 8, 31)));
}

#[test]
fn upsert_same_record_twice_keeps_one_with_later_title() {
    let mut store = HolidayStore::new();
    store.upsert(record(ymd(2024, 10, 3), "Einheit"));
    store.upsert(record(ymd(2024, 10, 3), "Tag der Deutschen Einheit"));
    assert_eq!(store.len(), 1);
    let all = get(&store);
    assert_eq!(all.len(), 1);
    assert_eq!(all[0].date, ymd(2024, 10, 3));
    assert_eq!(all[0].title, "Tag der Deutschen Einheit");
}

#[test]
fn upsert_holidays_replaces_by_date() {
    let mut store = HolidayStore::new();
    store.upsert_holidays(&vec![record(ymd(2024, 1, 1), "a"), record(ymd(2024, 1, 2), "b")]);
    store.upsert_holidays(&vec![record(ymd(2024, 1, 2), "c"), record(ymd(2024, 1, 1), "d")]);
    let all = get(&store);
    assert_eq!(all.len(), 2);
    for r in &all {
        if r.date == ymd(2024, 1, 1) {
            assert_eq!(r.title, "d");
        } else {
            assert_eq!(r.date, ymd(2024, 1, 2));
            assert_eq!(r.title, "c");
        }
    }
}

#[test]
fn next_schoolday_skips_holiday_and_weekend() {
    let mut store = HolidayStore::new();
    store.upsert(record(ymd(2024, 10, 3), "Tag der Deutschen Einheit"));
    let mut cache = HolidayCache::new();
    cache.rebuild(&store).unwrap();
    assert_eq!(next_schoolday(&cache, ymd(2024, 10, 2)), ymd(2024, 10, 4));
    assert_eq!(next_schoolday(&cache, ymd(2024, 10, 4)), ymd(2024, 10, 7));
}

#[test]
fn previous_schoolday_skips_holiday_and_weekend() {
    let mut store = HolidayStore::new();
    store.upsert(record(ymd(2024, 10, 3), "Tag der Deutschen Einheit"));
    let mut cache = HolidayCache::new();
    cache.rebuild(&store).unwrap();
    assert_eq!(previous_schoolday(&cache, ymd(2024, 10, 4)), ymd(2024, 10, 2));
    assert_eq!(previous_schoolday(&cache, ymd(2024, 10, 7)), ymd(2024, 10, 4));
}

#[test]
fn school_year_span_from_summer_breaks() {
    let (store, cache) = setup(vec![
        range("2024-08-01T00:00", "2024-08-24T00:00", "sommerferien"),
        range("2025-08-04T00:00", "2025-09-16T00:00", "sommerferien"),
    ]);
    let span = school_year_span(&store, &cache, 2024).unwrap();
    assert_eq!(span.year, 2024);
    assert_eq!(span.first_day, ymd(2024, 8, 26));
    assert_eq!(span.last_day, ymd(2025, 8, 1));
}

#[test]
fn last_day_steps_back_over_holidays() {
    let (store, cache) = setup(vec![
        range("2025-07-28T00:00", "2025-08-01T00:00", "brückentage"),
        range("2025-08-04T00:00", "2025-09-16T00:00", "sommerferien"),
    ]);
    assert_eq!(last_day_of_school(&store, &cache, 2024), Ok(ymd(2025, 7, 25)));
}

#[test]
fn last_day_search_is_bounded() {
    let (store, cache) = setup(vec![
        range("2025-07-21T00:00", "2025-08-03T00:00", "pfingstferien"),
        range("2025-08-04T00:00", "2025-09-16T00:00", "sommerferien"),
    ]);
    assert_eq!(last_day_of_school(&store, &cache, 2024), Err(CalendarError::BoundsExceeded));
}

#[test]
fn missing_summer_break_is_not_found() {
    let (store, cache) = setup(vec![range("2024-08-01T00:00", "2024-08-24T00:00", "sommerferien")]);
    assert_eq!(first_day_of_school(&store, &cache, 2023), Err(CalendarError::NotFound));
    assert_eq!(last_day_of_school(&store, &cache, 2024), Err(CalendarError::NotFound));
    assert!(school_year_span(&store, &cache, 2024).is_err());
}

#[test]
fn school_ranges_expand_to_days() {
    let records =
        read_school_holidays(&vec![range("2024-12-23T00:00", "2025-01-06T00:00", "weihnachtsferien")])
            .unwrap();
    assert_eq!(records.len(), 15);
    assert_eq!(records[0].date, ymd(2024, 12, 23));
    assert_eq!(records[14].date, ymd(2025, 1, 6));
    assert_eq!(records[7].title, "Weihnachtsferien");
}

#[test]
fn school_range_with_end_before_start_is_empty() {
    let records =
        read_school_holidays(&vec![range("2024-12-23T00:00", "2024-12-22T00:00", "x")]).unwrap();
    assert!(records.is_empty());
}

#[test]
fn unreadable_dates_are_parse_errors() {
    assert_eq!(
        read_school_holidays(&vec![range("2017-13-01T00:00", "2017-08-30T00:00", "sommerferien")])
            .err(),
        Some(CalendarError::Parse)
    );
    assert_eq!(
        read_general_holidays(&vec![general("Neujahr", "01.01.2024")]).err(),
        Some(CalendarError::Parse)
    );
    let mut store = HolidayStore::new();
    let mut cache = HolidayCache::new();
    let bad = vec![range("2024-08-01T00:00", "soon", "sommerferien")];
    assert_eq!(
        add_holidays_for(&mut store, &mut cache, &vec![], &bad),
        Err(CalendarError::Parse)
    );
    assert_eq!(store.len(), 0);
}

#[test]
fn general_holidays_keep_titles() {
    let records = read_general_holidays(&vec![general("Neujahr", "2024-01-01")]).unwrap();
    assert_eq!(records.len(), 1);
    assert_eq!(records[0].date, ymd(2024, 1, 1));
    assert_eq!(records[0].title, "Neujahr");
}

#[test]
fn capitalize_upper_cases_first_letter() {
    assert_eq!(capitalize("sommerferien"), "Sommerferien");
    assert_eq!(capitalize("ärger"), "Ärger");
    assert_eq!(capitalize(""), "");
}

#[test]
fn rebuild_refuses_dates_at_the_edge() {
    let mut store = HolidayStore::new();
    store.upsert(record(ymd(2024, 10, 3), "Einheit"));
    let mut cache = HolidayCache::new();
    cache.rebuild(&store).unwrap();
    store.upsert(record(ymd(9999, 12, 31), "Ende"));
    assert_eq!(cache.rebuild(&store), Err(CalendarError::OutOfRange));
    assert!(is_holiday(&cache, ymd(2024, 10, 3)));
    assert!(!is_holiday(&cache, ymd(9999, 12, 31)));
}

#[test]
fn refresh_needed_once_data_runs_out() {
    let mut store = HolidayStore::new();
    assert!(needs_refresh(&store, ymd(2024, 1, 1)));
    assert!(!needs_refresh(&store, ymd(2017, 1, 1)));
    store.upsert(record(ymd(2024, 12, 31), "Silvester"));
    assert!(!needs_refresh(&store, ymd(2024, 6, 1)));
    assert!(needs_refresh(&store, ymd(2025, 1, 1)));
}

#[test]
fn refresh_starts_at_latest_summer() {
    let mut store = HolidayStore::new();
    assert_eq!(refresh_start_year(&store), 2017);
    store.upsert(record(ymd(2023, 8, 1), "Sommerferien"));
    store.upsert(record(ymd(2022, 8, 1), "Sommerferien"));
    store.upsert(record(ymd(2024, 12, 24), "Weihnachtsferien"));
    assert_eq!(refresh_start_year(&store), 2023);
}

#[test]
fn schoolday_queries_from_text() {
    let mut store = HolidayStore::new();
    store.upsert(record(ymd(2024, 10, 3), "Tag der Deutschen Einheit"));
    let mut cache = HolidayCache::new();
    cache.rebuild(&store).unwrap();
    assert_eq!(timesheet::cache::get_next_schoolday(&cache, "2024-10-02"), Ok(ymd(2024, 10, 4)));
    assert_eq!(timesheet::cache::get_previous_schoolday(&cache, "2024-10-07"), Ok(ymd(2024, 10, 4)));
    assert_eq!(timesheet::cache::get_next_schoolday(&cache, "02.10.2024"), Err(CalendarError::Parse));
    assert_eq!(timesheet::cache::get_next_schoolday(&cache, "9999-12-30"), Err(CalendarError::OutOfRange));
    assert_eq!(timesheet::cache::get_previous_schoolday(&cache, "0001-01-02"), Err(CalendarError::OutOfRange));
}
