//! Calendar and week-rotation engine of a timesheet service: which days are
//! working days, where a school year starts and ends, and which of four
//! rotating labels each week of a school year carries.
pub mod cache;
pub mod date;
pub mod employees;
pub mod error;
pub mod globals;
pub mod holidays;
pub mod items;
pub mod school_year;
pub mod time;
pub mod upstream;
pub mod weeks;
