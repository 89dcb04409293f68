//! Calendar dates as day numbers, and instants within a day.

use vstd::prelude::*;

use chrono::Datelike;

verus! {

/// The day number of 1 January of year -262143, the first date chrono's
/// `NaiveDate` represents.
pub const FIRST_DAY: i32 = -95746129;

/// The day number of 31 December of year 262142, the last date chrono's
/// `NaiveDate` represents.
pub const LAST_DAY: i32 = 95745399;

/// A calendar date in the proleptic Gregorian calendar, as its day number:
/// 1 January of year 1 is day 1 (as chrono's `num_days_from_ce` counts),
/// and day 1 is a Monday.
#[derive(Clone, Copy, Debug, PartialEq, Eq, Structural, Hash, PartialOrd, Ord)]
pub struct Date {
    pub days: i32,
}

/// Is the date one chrono can represent?
pub open spec fn in_calendar(d: Date) -> bool {
    FIRST_DAY <= d.days <= LAST_DAY
}

/// The day number chrono's `NaiveDate::parse_from_str` with format
/// `%Y-%m-%d` gives for a text, if it accepts it.
pub uninterp spec fn parsed_ymd(text: Seq<char>) -> Option<int>;

/// Calls `chrono::NaiveDate::parse_from_str(text, "%Y-%m-%d")` and
/// `num_days_from_ce`; a `NaiveDate` is always within chrono's range.
#[verifier::external_body]
fn parse_ymd_day_number(text: &str) -> (r: Option<i32>)
    ensures
        r is Some <==> parsed_ymd(text@) is Some,
        r matches Some(d) ==> parsed_ymd(text@) == Some(d as int) && FIRST_DAY <= d <= LAST_DAY,
{
    chrono::NaiveDate::parse_from_str(text, "%Y-%m-%d").ok().map(|d| d.num_days_from_ce())
}

impl Date {
    /// The date with the given day number.
    pub fn new(days: i32) -> (d: Date)
        ensures
            d.days == days,
    {
        Date { days }
    }

    /// The next day.
    pub fn next(&self) -> (d: Date)
        requires
            in_calendar(*self),
        ensures
            d.days == self.days + 1,
    {
        Date { days: self.days + 1 }
    }

    /// Parses a `YYYY-MM-DD` date.
    pub fn parse(text: &str) -> (r: Option<Date>)
        ensures
            r is Some <==> parsed_ymd(text@) is Some,
            r matches Some(d) ==> parsed_ymd(text@) == Some(d.days as int) && in_calendar(d),
    {
        match parse_ymd_day_number(text) {
            Some(days) => Some(Date { days }),
            None => None,
        }
    }

    /// The day of the week, counted from Sunday (0) to Saturday (6).
    pub open spec fn weekday_from_sunday(self) -> int {
        self.days as int % 7
    }
}

/// An instant: a date and the milliseconds elapsed since its midnight.
#[derive(Clone, Copy, Debug, PartialEq, Eq, Structural, Hash, PartialOrd, Ord)]
pub struct Timestamp {
    pub date: Date,
    pub millis: u32,
}

impl Timestamp {
    /// The date of the instant.
    pub fn date(&self) -> (d: Date)
        ensures
            d == self.date,
    {
        self.date
    }
}

} // verus!
