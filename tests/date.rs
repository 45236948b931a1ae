use timesheet::date::{Date, DATE_FORMAT, MAX_DAY};
use timesheet::employees::sort_name;
use timesheet::globals::{self, Globals};

#[test]
fn day_numbers_count_from_year_one() {
    assert_eq!(Date::from_ymd(1, 1, 1).days(), 1);
    assert_eq!(Date::from_ymd(2024, 10, 2).days(), 739161);
    assert_eq!(Date::from_ymd(9999, 12, 31).days(), MAX_DAY);
    assert_eq!(Date::from_ymd(2024, 3, 1).days() - Date::from_ymd(2024, 2, 28).days(), 2);
    assert_eq!(Date::from_ymd(2023, 3, 1).days() - Date::from_ymd(2023, 2, 28).days(), 1);
    assert_eq!(Date::from_days(0), None);
    assert_eq!(Date::from_days(MAX_DAY + 1), None);
}

#[test]
fn weekdays() {
    assert_eq!(Date::from_ymd(2024, 10, 2).weekday(), 2);
    assert_eq!(Date::from_ymd(2024, 10, 6).weekday(), 6);
    assert!(Date::from_ymd(2024, 10, 5).is_weekend());
    assert!(!Date::from_ymd(2024, 10, 7).is_weekend());
}

#[test]
fn format_and_parse() {
    let d = Date::from_ymd(2024, 8, 5);
    assert_eq!(d.format(), "2024-08-05");
    assert_eq!(Date::parse_from_str("2024-08-05", DATE_FORMAT), Some(d));
    assert_eq!(Date::parse_from_str("2024-08-05T00:00", "%Y-%m-%dT00:00"), Some(d));
    assert_eq!(Date::parse_from_str("2024-02-30", DATE_FORMAT), None);
    assert_eq!(Date::parse_from_str("-0005-01-01", DATE_FORMAT), None);
}

#[test]
fn year_and_iso_week() {
    assert_eq!(Date::from_ymd(2024, 12, 31).year(), 2024);
    assert_eq!(Date::from_ymd(2025, 1, 1).year(), 2025);
    assert_eq!(Date::from_ymd(2024, 12, 30).iso_week(), (2025, 1));
    assert_eq!(Date::from_ymd(2024, 10, 2).iso_week(), (2024, 40));
}

#[test]
fn steps() {
    let d = Date::from_ymd(2024, 12, 31);
    assert_eq!(d.succ(), Date::from_ymd(2025, 1, 1));
    assert_eq!(d.succ().pred(), d);
}

#[test]
fn sort_names() {
    assert_eq!(sort_name("Alice A."), "A., Alice");
    assert_eq!(sort_name("Ada B. Lovelace"), "Lovelace, AdaB.");
    assert_eq!(sort_name("Cher"), "Cher, ");
}

#[test]
fn globals_bounds() {
    let g = Globals::new();
    assert_eq!(g.mintime, "12:30");
    assert_eq!(g.maxtime, "16:00");
    assert_eq!(globals::get().mintime, "12:30");
}

#[test]
fn next_work_day_skips_weekend_and_october_third() {
    assert_eq!(Date::from_ymd(2024, 10, 2).next(), Date::from_ymd(2024, 10, 4));
    assert_eq!(Date::from_ymd(2024, 10, 4).next(), Date::from_ymd(2024, 10, 7));
    assert_eq!(Date::from_ymd(2024, 10, 1).next(), Date::from_ymd(2024, 10, 2));
    // 2025-10-03 is a Friday: the next work day is the Monday after
    assert_eq!(Date::from_ymd(2025, 10, 2).next(), Date::from_ymd(2025, 10, 6));
    assert!(!Date::from_ymd(2023, 10, 3).is_work_day());
    assert!(Date::from_ymd(2023, 10, 4).is_work_day());
}
