use timesheet::cache::HolidayCache;
use timesheet::date::Date;
use timesheet::error::CalendarError;
use timesheet::holidays::HolidayStore;
use timesheet::upstream::SchoolHoliday;
use timesheet::weeks::{get_type_of_week, type_of_week_name, NewWeek, TypeOfWeek};

fn range(start: &str, end: &str) -> SchoolHoliday {
    SchoolHoliday { start: start.to_string(), end: end.to_string(), name: "sommerferien".to_string() }
}

fn summers() -> (HolidayStore, HolidayCache) {
    let mut store = HolidayStore::new();
    let mut cache = HolidayCache::new();
    let ranges = vec![
        range("2017-07-17T00:00", "2017-08-29T00:00"),
        range("2018-07-16T00:00", "2018-08-28T00:00"),
    ];
    timesheet::holidays::add_holidays_for(&mut store, &mut cache, &vec![], &ranges).unwrap();
    (store, cache)
}

#[test]
fn rotation_labels_cycle() {
    let (store, cache) = summers();
    let mut table = TypeOfWeek::new(vec![]);
    let added = table.populate_table(&store, &cache, 2017).unwrap();
    assert!(added.len() > 40);
    assert_eq!(added[0], NewWeek { year: 2017, week_of_year: 35, type_of_week: 0 });
    for (i, row) in added.iter().enumerate() {
        assert_eq!(row.type_of_week, (i % 4) as i32);
        if i > 0 {
            assert_ne!(row.type_of_week, added[i - 1].type_of_week);
            assert_ne!(row.week_of_year, added[i - 1].week_of_year);
        }
    }
    let last = added[added.len() - 1];
    assert_eq!((last.year, last.week_of_year), (2018, 28));
    assert_eq!(table.rows().len(), added.len());
    assert_eq!(table.covered_through(), 2017);
}

#[test]
fn populating_twice_adds_nothing() {
    let (store, cache) = summers();
    let mut table = TypeOfWeek::new(vec![]);
    let added = table.populate_table(&store, &cache, 2017).unwrap();
    let once: Vec<NewWeek> = table.rows().clone();
    let again = table.populate_table(&store, &cache, 2017).unwrap();
    assert!(again.is_empty());
    assert_eq!(table.rows(), &once);
    assert_eq!(once, added);
}

#[test]
fn populate_fails_without_next_summer_and_keeps_table() {
    let (store, cache) = summers();
    let mut table = TypeOfWeek::new(vec![]);
    assert_eq!(table.populate_table(&store, &cache, 2018), Err(CalendarError::NotFound));
    assert!(table.rows().is_empty());
    assert_eq!(table.covered_through(), 2016);
}

#[test]
fn type_of_week_lookup() {
    let (store, cache) = summers();
    let mut table = TypeOfWeek::new(vec![]);
    table.populate_table(&store, &cache, 2017).unwrap();
    assert_eq!(table.get(Date::from_ymd(2017, 8, 30)), 0);
    assert_eq!(table.get(Date::from_ymd(2017, 9, 4)), 1);
    assert_eq!(get_type_of_week(&table, Date::from_ymd(2017, 9, 13)), 2);
    assert_eq!(table.get(Date::from_ymd(2017, 9, 18)), 3);
    assert_eq!(table.get(Date::from_ymd(2017, 9, 25)), 0);
    // a week with no row gets label 0
    assert_eq!(table.get(Date::from_ymd(2030, 1, 7)), 0);
}

#[test]
fn loaded_table_covers_year_before_latest_row() {
    let table = TypeOfWeek::new(vec![
        NewWeek { year: 2018, week_of_year: 28, type_of_week: 1 },
        NewWeek { year: 2017, week_of_year: 35, type_of_week: 0 },
    ]);
    assert_eq!(table.covered_through(), 2017);
    assert_eq!(table.get(Date::from_ymd(2018, 7, 10)), 1);
    assert_eq!(TypeOfWeek::new(vec![]).covered_through(), 2016);
}

#[test]
fn new_week_uses_iso_week() {
    assert_eq!(
        NewWeek::new(Date::from_ymd(2021, 1, 1), 2),
        NewWeek { year: 2020, week_of_year: 53, type_of_week: 2 }
    );
}

#[test]
fn week_names() {
    assert_eq!(type_of_week_name(0), "A");
    assert_eq!(type_of_week_name(3), "D");
}
