use timesheet::date::Date;
use timesheet::items::{template, InvoiceItem};
use timesheet::time::Time;

#[test]
fn times_format_as_hours_and_minutes() {
    assert_eq!(Time::from_hms(13, 0, 0).format(), "13:00");
    assert_eq!(Time::from_hms(9, 5, 59).format(), "09:05");
    assert_eq!(Time::from_hms(23, 59, 0).format(), "23:59");
    assert_eq!(Time::from_hms(15, 30, 0).seconds(), 55800);
}

#[test]
fn new_item_defaults() {
    let item = InvoiceItem::new();
    assert_eq!(item.id, 0);
    assert_eq!(item.day, Date::from_ymd(2017, 8, 1));
    assert_eq!(item.start.format(), "13:00");
    assert_eq!(item.end.format(), "15:30");
    assert!(item.name.is_empty() && item.remark.is_empty());
}

#[test]
fn template_clears_id_and_name() {
    let mut last = InvoiceItem::new();
    last.id = 7;
    last.employee_id = 3;
    last.report_id = 2;
    last.name = "Alice A.".to_string();
    last.day = Date::from_ymd(2024, 10, 2);
    last.remark = "Vertretung".to_string();
    let t = template(Some(last));
    assert_eq!(t.id, 0);
    assert_eq!(t.name, "");
    assert_eq!(t.employee_id, 3);
    assert_eq!(t.report_id, 2);
    assert_eq!(t.day, Date::from_ymd(2024, 10, 2));
    assert_eq!(t.remark, "Vertretung");
    let fresh = template(None);
    assert_eq!(fresh.day, Date::from_ymd(2017, 8, 1));
}
