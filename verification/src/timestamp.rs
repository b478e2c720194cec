//! Calendar time as the archive writes it into file names.

use crate::decimal::{decimal_digits, digit_char};
use vstd::prelude::*;

verus! {

/// A date and a time of day, as plain numbers.
pub ghost struct DateTime {
    pub year: int,
    pub month: int,
    pub day: int,
    pub hour: int,
    pub minute: int,
    pub second: int,
}

/// The first and the last year that a timestamp can hold.
pub const MIN_YEAR: i32 = -262143;

pub const MAX_YEAR: i32 = 262142;

/// Whether `year` has a 29th of February in the proleptic Gregorian calendar.
pub open spec fn is_leap_year(year: int) -> bool {
    year % 4 == 0 && (year % 100 != 0 || year % 400 == 0)
}

/// The number of days of `month` in `year`; zero where `month` is no month.
pub open spec fn days_in_month(year: int, month: int) -> int {
    if month == 2 {
        if is_leap_year(year) {
            29
        } else {
            28
        }
    } else if month == 4 || month == 6 || month == 9 || month == 11 {
        30
    } else if 1 <= month <= 12 {
        31
    } else {
        0
    }
}

impl DateTime {
    /// Whether the numbers name a day of the calendar and a second of that
    /// day. A leap second has no place here.
    pub open spec fn is_valid(self) -> bool {
        &&& MIN_YEAR <= self.year <= MAX_YEAR
        &&& 1 <= self.month <= 12
        &&& 1 <= self.day <= days_in_month(self.year, self.month)
        &&& 0 <= self.hour < 24
        &&& 0 <= self.minute < 60
        &&& 0 <= self.second < 60
    }

    /// The date and time as `YYYY-MM-DD_HH-MM-SS`.
    pub open spec fn text(self) -> Seq<char> {
        year_text(self.year) + seq!['-'] + two_digits(self.month) + seq!['-'] + two_digits(
            self.day,
        ) + seq!['_'] + two_digits(self.hour) + seq!['-'] + two_digits(self.minute) + seq!['-']
            + two_digits(self.second)
    }
}

/// The date and time that the given numbers name.
pub open spec fn date_time(year: i32, month: u32, day: u32, hour: u32, minute: u32, second: u32) -> DateTime {
    DateTime {
        year: year as int,
        month: month as int,
        day: day as int,
        hour: hour as int,
        minute: minute as int,
        second: second as int,
    }
}

/// A number below one hundred in two digits.
pub open spec fn two_digits(n: int) -> Seq<char> {
    seq![digit_char(n / 10), digit_char(n % 10)]
}

/// A number in four digits or more, with zeros in front where it has fewer.
pub open spec fn four_digits(n: int) -> Seq<char> {
    if n < 10000 {
        two_digits(n / 100) + two_digits(n % 100)
    } else {
        decimal_digits(n as nat)
    }
}

/// A year as a timestamp shows it: four digits from year 0 to year 9999, and
/// with a sign before the digits outside of these.
pub open spec fn year_text(year: int) -> Seq<char> {
    if year < 0 {
        seq!['-'] + four_digits(-year)
    } else if year < 10000 {
        four_digits(year)
    } else {
        seq!['+'] + four_digits(year)
    }
}

/// A valid date and time of day.
#[derive(Debug, Clone, Copy, PartialEq, Eq)]
pub struct Timestamp {
    year: i32,
    month: u32,
    day: u32,
    hour: u32,
    minute: u32,
    second: u32,
}

impl View for Timestamp {
    type V = DateTime;

    closed spec fn view(&self) -> DateTime {
        date_time(self.year, self.month, self.day, self.hour, self.minute, self.second)
    }
}

/// Whether `year` is a leap year.
pub fn leap_year(year: i32) -> (r: bool)
    ensures
        r == is_leap_year(year as int),
{
    // The shift is a multiple of 400, so it keeps every remainder.
    let shifted: i64 = year as i64 + 2147484000;
    shifted % 4 == 0 && (shifted % 100 != 0 || shifted % 400 == 0)
}

/// The number of days of `month` in `year`; zero where `month` is no month.
pub fn month_length(year: i32, month: u32) -> (r: u32)
    ensures
        r == days_in_month(year as int, month as int),
{
    if month == 2 {
        if leap_year(year) {
            29
        } else {
            28
        }
    } else if month == 4 || month == 6 || month == 9 || month == 11 {
        30
    } else if 1 <= month && month <= 12 {
        31
    } else {
        0
    }
}

/// Writes a date and time with chrono: `NaiveDate::from_ymd_opt`, then
/// `NaiveDate::and_hms_opt`, then `NaiveDateTime::format` with the pattern
/// `%Y-%m-%d_%H-%M-%S`. The contract claims that chrono takes exactly the
/// valid dates and times, and that it writes the year in four digits (with a
/// sign outside of 0 to 9999) and each other field in two.
#[verifier::external_body]
fn format_date_time(year: i32, month: u32, day: u32, hour: u32, minute: u32, second: u32) -> (r:
    Option<String>)
    ensures
        r is Some <==> date_time(year, month, day, hour, minute, second).is_valid(),
        r is Some ==> r->0@ == date_time(year, month, day, hour, minute, second).text(),
{
    match chrono::NaiveDate::from_ymd_opt(year, month, day) {
        Some(date) => match date.and_hms_opt(hour, minute, second) {
            Some(time) => Some(time.format("%Y-%m-%d_%H-%M-%S").to_string()),
            None => None,
        },
        None => None,
    }
}

impl Timestamp {
    #[verifier::type_invariant]
    spec fn well_formed(self) -> bool {
        self@.is_valid()
    }

    /// The timestamp of the given date and time, where there is such a day
    /// and such a second.
    pub fn new(year: i32, month: u32, day: u32, hour: u32, minute: u32, second: u32) -> (r: Option<
        Timestamp,
    >)
        ensures
            r is Some <==> date_time(year, month, day, hour, minute, second).is_valid(),
            r is Some ==> r->0@ == date_time(year, month, day, hour, minute, second),
    {
        if year < MIN_YEAR || year > MAX_YEAR || month < 1 || month > 12 || hour >= 24 || minute
            >= 60 || second >= 60 {
            return None;
        }
        if day < 1 || day > month_length(year, month) {
            return None;
        }
        Some(Timestamp { year, month, day, hour, minute, second })
    }

    /// The timestamp as `YYYY-MM-DD_HH-MM-SS`.
    pub fn format(&self) -> (r: String)
        ensures
            self@.is_valid(),
            r@ == self@.text(),
    {
        proof {
            use_type_invariant(self);
        }
        match format_date_time(
            self.year,
            self.month,
            self.day,
            self.hour,
            self.minute,
            self.second,
        ) {
            Some(text) => text,
            None => {
                proof {
                    assert(false);
                }
                String::new()
            },
        }
    }
}

} // verus!
