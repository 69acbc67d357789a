//! Gregorian dates, months and weekdays.
use chrono::Datelike;
use vstd::prelude::*;

verus! {

/// Smallest year the resolver accepts.
pub const MIN_YEAR: i32 = 1;

/// Largest year the resolver accepts (four digits in a `YYYYMMDD` stamp).
pub const MAX_YEAR: i32 = 9999;

pub open spec fn is_leap_year(y: int) -> bool {
    (y % 4 == 0 && y % 100 != 0) || y % 400 == 0
}

/// Number of days of month `m` (1..=12) in year `y`.
pub open spec fn days_in_month(y: int, m: int) -> int {
    if m == 2 {
        if is_leap_year(y) { 29 } else { 28 }
    } else if m == 4 || m == 6 || m == 9 || m == 11 {
        30
    } else {
        31
    }
}

/// Days of the months of year `y` that come before month `m`.
pub open spec fn days_before_month(y: int, m: int) -> int
    decreases m,
{
    if m <= 1 { 0 } else { days_before_month(y, m - 1) + days_in_month(y, m - 1) }
}

/// Leap years among the years `1..=y` (negated count below zero).
pub open spec fn leap_years_through(y: int) -> int {
    y / 4 - y / 100 + y / 400
}

/// Days from 1970-01-01 to January 1st of year `y`.
pub open spec fn days_before_year(y: int) -> int {
    365 * (y - 1970) + leap_years_through(y - 1) - leap_years_through(1969)
}

/// Days from 1970-01-01 to the date `(y, m, d)` of the proleptic Gregorian calendar.
pub open spec fn day_number(y: int, m: int, d: int) -> int {
    days_before_year(y) + days_before_month(y, m) + d - 1
}

/// Weekday of `(y, m, d)` counted from Monday = 0; 1970-01-01 was a Thursday.
pub open spec fn weekday_index(y: int, m: int, d: int) -> int {
    (day_number(y, m, d) + 3) % 7
}

pub open spec fn is_valid_date(y: int, m: int, d: int) -> bool {
    1 <= m <= 12 && 1 <= d <= days_in_month(y, m)
}

pub open spec fn year_in_range(y: int) -> bool {
    MIN_YEAR <= y <= MAX_YEAR
}

/// The twelve months of the Gregorian calendar.
#[derive(Clone, Copy, Debug, PartialEq, Eq, Structural)]
pub enum Month {
    January,
    February,
    March,
    April,
    May,
    June,
    July,
    August,
    September,
    October,
    November,
    December,
}

impl Month {
    pub open spec fn index(self) -> int {
        match self {
            Month::January => 1,
            Month::February => 2,
            Month::March => 3,
            Month::April => 4,
            Month::May => 5,
            Month::June => 6,
            Month::July => 7,
            Month::August => 8,
            Month::September => 9,
            Month::October => 10,
            Month::November => 11,
            Month::December => 12,
        }
    }

    /// The month numbered 1..=12.
    pub open spec fn from_index(i: int) -> Month {
        if i <= 1 {
            Month::January
        } else if i == 2 {
            Month::February
        } else if i == 3 {
            Month::March
        } else if i == 4 {
            Month::April
        } else if i == 5 {
            Month::May
        } else if i == 6 {
            Month::June
        } else if i == 7 {
            Month::July
        } else if i == 8 {
            Month::August
        } else if i == 9 {
            Month::September
        } else if i == 10 {
            Month::October
        } else if i == 11 {
            Month::November
        } else {
            Month::December
        }
    }

    /// Number of the month, January = 1.
    pub fn number_from_month(&self) -> (r: u32)
        ensures
            r == self.index(),
            1 <= r <= 12,
    {
        match self {
            Month::January => 1,
            Month::February => 2,
            Month::March => 3,
            Month::April => 4,
            Month::May => 5,
            Month::June => 6,
            Month::July => 7,
            Month::August => 8,
            Month::September => 9,
            Month::October => 10,
            Month::November => 11,
            Month::December => 12,
        }
    }

    /// The following month; December wraps to January.
    pub fn succ(&self) -> (r: Month)
        ensures
            r.index() == if self.index() == 12 { 1 } else { self.index() + 1 },
    {
        match self {
            Month::January => Month::February,
            Month::February => Month::March,
            Month::March => Month::April,
            Month::April => Month::May,
            Month::May => Month::June,
            Month::June => Month::July,
            Month::July => Month::August,
            Month::August => Month::September,
            Month::September => Month::October,
            Month::October => Month::November,
            Month::November => Month::December,
            Month::December => Month::January,
        }
    }
}

/// The seven days of the week, starting on Monday.
#[derive(Clone, Copy, Debug, PartialEq, Eq, Structural)]
pub enum Weekday {
    Mon,
    Tue,
    Wed,
    Thu,
    Fri,
    Sat,
    Sun,
}

impl Weekday {
    /// Days since Monday.
    pub open spec fn index(self) -> int {
        match self {
            Weekday::Mon => 0,
            Weekday::Tue => 1,
            Weekday::Wed => 2,
            Weekday::Thu => 3,
            Weekday::Fri => 4,
            Weekday::Sat => 5,
            Weekday::Sun => 6,
        }
    }
}

/// A calendar date of the proleptic Gregorian calendar.
#[derive(Clone, Copy, Debug, PartialEq, Eq, Structural)]
pub struct Date {
    pub year: i32,
    pub month: u32,
    pub day: u32,
}

impl Date {
    pub open spec fn wf(self) -> bool {
        is_valid_date(self.year as int, self.month as int, self.day as int)
    }

    pub open spec fn weekday_spec(self) -> int {
        weekday_index(self.year as int, self.month as int, self.day as int)
    }

    /// Number of days of `month` in `year`.
    pub fn days_in_month(year: i32, month: u32) -> (r: u32)
        requires
            1 <= month <= 12,
        ensures
            r == days_in_month(year as int, month as int),
    {
        if month == 2 {
            if (year % 4 == 0 && year % 100 != 0) || year % 400 == 0 {
                29
            } else {
                28
            }
        } else if month == 4 || month == 6 || month == 9 || month == 11 {
            30
        } else {
            31
        }
    }

    /// The day after `self`.
    pub fn succ(&self) -> (r: Date)
        requires
            self.wf(),
            self.month < 12 || self.day < 31 || self.year < i32::MAX,
        ensures
            r.wf(),
            r == (if self.day < days_in_month(self.year as int, self.month as int) {
                Date { day: (self.day + 1) as u32, ..*self }
            } else if self.month < 12 {
                Date { year: self.year, month: (self.month + 1) as u32, day: 1 }
            } else {
                Date { year: (self.year + 1) as i32, month: 1, day: 1 }
            }),
    {
        let dim = Date::days_in_month(self.year, self.month);
        if self.day < dim {
            Date { year: self.year, month: self.month, day: self.day + 1 }
        } else if self.month < 12 {
            Date { year: self.year, month: self.month + 1, day: 1 }
        } else {
            Date { year: self.year + 1, month: 1, day: 1 }
        }
    }

    /// The day before `self`.
    pub fn pred(&self) -> (r: Date)
        requires
            self.wf(),
            self.month > 1 || self.day > 1 || self.year > i32::MIN,
        ensures
            r.wf(),
            r == (if self.day > 1 {
                Date { day: (self.day - 1) as u32, ..*self }
            } else if self.month > 1 {
                Date {
                    year: self.year,
                    month: (self.month - 1) as u32,
                    day: days_in_month(self.year as int, self.month - 1) as u32,
                }
            } else {
                Date { year: (self.year - 1) as i32, month: 12, day: 31 }
            }),
    {
        if self.day > 1 {
            Date { year: self.year, month: self.month, day: self.day - 1 }
        } else if self.month > 1 {
            let dim = Date::days_in_month(self.year, self.month - 1);
            Date { year: self.year, month: self.month - 1, day: dim }
        } else {
            Date { year: self.year - 1, month: 12, day: 31 }
        }
    }
}

/// Within a month, the weekday advances by one from each day to the next.
pub proof fn lemma_weekday_step(y: int, m: int, d: int)
    ensures
        weekday_index(y, m, d + 1) == (weekday_index(y, m, d) + 1) % 7,
{
}

/// Relies on chrono's `NaiveDate::from_ymd_opt` and `Datelike::weekday`: the
/// proleptic Gregorian weekday of a date that chrono can represent.
#[verifier::external_body]
pub(crate) fn weekday_of(date: &Date) -> (r: Weekday)
    requires
        date.wf(),
        year_in_range(date.year as int),
    ensures
        r.index() == date.weekday_spec(),
{
    match chrono::NaiveDate::from_ymd_opt(date.year, date.month, date.day).unwrap().weekday() {
        chrono::Weekday::Mon => Weekday::Mon,
        chrono::Weekday::Tue => Weekday::Tue,
        chrono::Weekday::Wed => Weekday::Wed,
        chrono::Weekday::Thu => Weekday::Thu,
        chrono::Weekday::Fri => Weekday::Fri,
        chrono::Weekday::Sat => Weekday::Sat,
        chrono::Weekday::Sun => Weekday::Sun,
    }
}

} // verus!
