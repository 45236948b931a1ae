//! Rows of the main table of the front end: who worked on what day, from when to when.
use vstd::prelude::*;

use crate::date::{day_number, Date};
use crate::time::Time;

verus! {

/// A work interval of an employee, as the front end lists it.
#[derive(Debug)]
pub struct InvoiceItem {
    pub id: i32,
    pub employee_id: i32,
    pub report_id: i32,
    pub name: String,
    pub name_sort: String,
    pub day: Date,
    pub type_of_week: i32,
    pub start: Time,
    pub end: Time,
    pub remark: String,
}

impl InvoiceItem {
    /// An empty item on 2017-08-01 from 13:00 to 15:30.
    pub fn new() -> (r: InvoiceItem)
        ensures
            r.id == 0 && r.employee_id == 0 && r.report_id == 0 && r.type_of_week == 0,
            r.name@ == Seq::<char>::empty() && r.name_sort@ == Seq::<char>::empty()
                && r.remark@ == Seq::<char>::empty(),
            r.day@ == day_number(2017, 8, 1),
            r.start@ == 13 * 3600,
            r.end@ == 15 * 3600 + 30 * 60,
    {
        InvoiceItem {
            id: 0,
            employee_id: 0,
            report_id: 0,
            name: String::new(),
            name_sort: String::new(),
            day: Date::from_ymd(2017, 8, 1),
            type_of_week: 0,
            start: Time::from_hms(13, 0, 0),
            end: Time::from_hms(15, 30, 0),
            remark: String::new(),
        }
    }
}

/// A template for the next item of a report: its latest item with the id and the name
/// cleared, or `InvoiceItem::new()` where the report has no item yet.
pub fn template(last: Option<InvoiceItem>) -> (r: InvoiceItem)
    ensures
        match last {
            Some(l) => r.id == 0 && r.name@ == Seq::<char>::empty() && r.employee_id
                == l.employee_id && r.report_id == l.report_id && r.name_sort == l.name_sort
                && r.day == l.day && r.type_of_week == l.type_of_week && r.start == l.start
                && r.end == l.end && r.remark == l.remark,
            None => r.id == 0 && r.employee_id == 0 && r.report_id == 0 && r.type_of_week == 0
                && r.name@ == Seq::<char>::empty() && r.name_sort@ == Seq::<char>::empty()
                && r.remark@ == Seq::<char>::empty() && r.day@ == day_number(2017, 8, 1) && r.start@
                == 13 * 3600 && r.end@ == 15 * 3600 + 30 * 60,
        },
{
    match last {
        Some(mut item) => {
            item.id = 0;
            item.name = String::new();
            item
        },
        None => InvoiceItem::new(),
    }
}

} // verus!
