//! Dates of the proleptic Gregorian calendar.

use vstd::prelude::*;

verus! {

/// True when `year` has a 29th of February: every fourth year, but of the
/// years that end a century only every fourth. Year zero and the years
/// before it count as well.
pub open spec fn is_leap_year(year: int) -> bool {
    year % 4 == 0 && (year % 100 != 0 || year % 400 == 0)
}

/// The number of days of the month (1 to 12) of the given year.
pub open spec fn days_in_month(year: int, month: int) -> int {
    if month == 2 {
        if is_leap_year(year) {
            29
        } else {
            28
        }
    } else if month == 4 || month == 6 || month == 9 || month == 11 {
        30
    } else {
        31
    }
}

/// True when the three numbers name a day of the calendar, in a year of at
/// most four digits.
pub open spec fn is_calendar_date(year: int, month: int, day: int) -> bool {
    &&& -9999 <= year <= 9999
    &&& 1 <= month <= 12
    &&& 1 <= day <= days_in_month(year, month)
}

/// What a date holds.
pub struct DateView {
    pub year: int,
    pub month: int,
    pub day: int,
}

/// A day of the calendar. The year may be zero or negative.
#[derive(Clone, Copy, Debug, PartialEq, Eq)]
pub struct Date {
    year: i32,
    month: u8,
    day: u8,
}

impl View for Date {
    type V = DateView;

    closed spec fn view(&self) -> DateView {
        DateView { year: self.year as int, month: self.month as int, day: self.day as int }
    }
}

/// Asks `time::Date::from_calendar_date` whether the given day exists; the
/// number of the month is handed over as a `time::Month`. The contract
/// claims that it accepts exactly the days from 1 to the length of that
/// month in that year of the proleptic Gregorian calendar. Years that it
/// may refuse for being too far away, and numbers that are no month, are
/// kept away from it.
#[verifier::external_body]
fn day_exists(year: i32, month: u8, day: u8) -> (ok: bool)
    requires
        -9999 <= year <= 9999,
        1 <= month <= 12,
    ensures
        ok == (1 <= day <= days_in_month(year as int, month as int)),
{
    match time::Month::try_from(month) {
        Ok(m) => time::Date::from_calendar_date(year, m, day).is_ok(),
        Err(_) => false,
    }
}

impl Date {
    /// The date is a day of the calendar.
    pub open spec fn wf(&self) -> bool {
        is_calendar_date(self@.year, self@.month, self@.day)
    }

    /// The date of the given year, month and day, if there is such a day.
    pub fn new(year: i32, month: u8, day: u8) -> (r: Option<Date>)
        ensures
            r is Some <==> is_calendar_date(year as int, month as int, day as int),
            r matches Some(d) ==> d.wf() && d@ == (DateView {
                year: year as int,
                month: month as int,
                day: day as int,
            }),
    {
        if year < -9999 || year > 9999 || month < 1 || month > 12 {
            return None;
        }
        if day_exists(year, month, day) {
            Some(Date { year, month, day })
        } else {
            None
        }
    }

    /// The year, from -9999 to 9999.
    pub fn year(&self) -> (y: i32)
        ensures
            y == self@.year,
    {
        self.year
    }

    /// The number of the month, from 1 to 12.
    pub fn month(&self) -> (m: u8)
        ensures
            m == self@.month,
    {
        self.month
    }

    /// The day of the month, from 1 on.
    pub fn day(&self) -> (d: u8)
        ensures
            d == self@.day,
    {
        self.day
    }
}

} // verus!
