//! The cutoff date: a day of the proleptic Gregorian calendar, without a time
//! of day. Messages dated before it are candidates for deletion.

use chrono::{Datelike, NaiveDate};
use vstd::prelude::*;

verus! {

/// The earliest year of a cutoff date.
pub const MIN_YEAR: i32 = -262_143;

/// The latest year of a cutoff date.
pub const MAX_YEAR: i32 = 262_142;

/// Whether `year` has a 29th of February.
pub open spec fn is_leap_year(year: int) -> bool {
    year % 4 == 0 && (year % 100 != 0 || year % 400 == 0)
}

/// The number of days of month `month` (1 to 12) of `year`.
pub open spec fn days_in_month(year: int, month: int) -> int {
    if month == 2 {
        if is_leap_year(year) {
            29
        } else {
            28
        }
    } else if month == 4 || month == 6 || month == 9 || month == 11 {
        30
    } else {
        31
    }
}

/// Whether the calendar has the day `day` of month `month` of `year`, in a
/// year from `MIN_YEAR` to `MAX_YEAR`.
pub open spec fn is_calendar_date(year: int, month: int, day: int) -> bool {
    &&& MIN_YEAR <= year <= MAX_YEAR
    &&& 1 <= month <= 12
    &&& 1 <= day <= days_in_month(year, month)
}

/// The text that chrono writes for the day `day` of month `month` of `year`
/// under the pattern `%-e-%b-%Y`: the day of the month without padding, the
/// month's English three-letter name and the year, with `-` between them.
pub uninterp spec fn date_text(year: int, month: int, day: int) -> Seq<char>;

/// The date that chrono reads from `text` under the pattern `%Y-%m-%d`, as
/// year, month and day, or `None` where it reads none.
pub uninterp spec fn parsed_date(text: Seq<char>) -> Option<(i32, u32, u32)>;

/// chrono's `ParseError`, which says why a text could not be read. It is
/// carried along as it is; nothing is claimed of what it holds.
#[verifier::external_type_specification]
#[verifier::external_body]
pub struct ExParseError(chrono::ParseError);

/// A day of the calendar. Every value is a day that exists.
#[derive(Clone, Copy, Debug, PartialEq, Eq)]
pub struct CutoffDate {
    year: i32,
    month: u32,
    day: u32,
}

/// Why a text is not a date.
#[derive(Clone, Copy, Debug, PartialEq, Eq)]
pub struct DateError {
    /// What chrono reported.
    pub cause: chrono::ParseError,
}

/// chrono's `NaiveDate::from_ymd_opt`, then `NaiveDate::format` with the
/// pattern `%-e-%b-%Y` and `to_string` on what that gives. chrono makes a date
/// of every day that the calendar has within its range of years; the text it
/// writes for one depends on the day alone and is named `date_text`.
#[verifier::external_body]
fn chrono_date_text(year: i32, month: u32, day: u32) -> (text: Option<String>)
    ensures
        is_calendar_date(year as int, month as int, day as int) ==> text.is_some(),
        text matches Some(s) ==> s@ == date_text(year as int, month as int, day as int),
{
    match NaiveDate::from_ymd_opt(year, month, day) {
        Some(date) => Some(date.format("%-e-%b-%Y").to_string()),
        None => None,
    }
}

/// chrono's `NaiveDate::parse_from_str` with the pattern `%Y-%m-%d`, and the
/// year, month and day of the date it gives. Whether it gives one, and which,
/// depends on the text alone and is named `parsed_date`; a date of chrono is a
/// day that the calendar has.
#[verifier::external_body]
fn chrono_parse_date(text: &str) -> (parsed: Result<(i32, u32, u32), chrono::ParseError>)
    ensures
        parsed matches Ok(ymd) ==> parsed_date(text@) == Some(ymd) && is_calendar_date(
            ymd.0 as int,
            ymd.1 as int,
            ymd.2 as int,
        ),
        parsed is Err ==> parsed_date(text@) is None,
{
    match NaiveDate::parse_from_str(text, "%Y-%m-%d") {
        Ok(date) => Ok((date.year(), date.month(), date.day())),
        Err(error) => Err(error),
    }
}

impl CutoffDate {
    #[verifier::type_invariant]
    spec fn exists_in_calendar(self) -> bool {
        is_calendar_date(self.year as int, self.month as int, self.day as int)
    }

    /// The year.
    pub closed spec fn year_of(&self) -> i32 {
        self.year
    }

    /// The month, 1 to 12.
    pub closed spec fn month_of(&self) -> u32 {
        self.month
    }

    /// The day of the month, from 1.
    pub closed spec fn day_of(&self) -> u32 {
        self.day
    }

    /// Whether this is a day that the calendar has. It holds of every value
    /// that a program can hold.
    pub open spec fn is_valid(&self) -> bool {
        is_calendar_date(self.year_of() as int, self.month_of() as int, self.day_of() as int)
    }

    /// The day `day` of month `month` of `year`, if the calendar has it.
    pub fn new(year: i32, month: u32, day: u32) -> (date: Option<CutoffDate>)
        ensures
            date.is_some() <==> is_calendar_date(year as int, month as int, day as int),
            date matches Some(d) ==> d.year_of() == year && d.month_of() == month && d.day_of()
                == day,
    {
        if year < MIN_YEAR || year > MAX_YEAR || month < 1 || month > 12 || day < 1 {
            return None;
        }
        // 262_400 is a multiple of 400, so the shifted year is a leap year
        // exactly when `year` is one.
        let shifted: u32 = (year + 262_400) as u32;
        let leap: bool = shifted % 4 == 0 && (shifted % 100 != 0 || shifted % 400 == 0);
        assert(leap == is_leap_year(year as int));
        let length: u32 = if month == 2 {
            if leap {
                29
            } else {
                28
            }
        } else if month == 4 || month == 6 || month == 9 || month == 11 {
            30
        } else {
            31
        };
        if day > length {
            return None;
        }
        Some(CutoffDate { year, month, day })
    }

    /// The year.
    #[verifier::when_used_as_spec(year_of)]
    pub fn year(&self) -> (year: i32)
        ensures
            year == self.year_of(),
            self.is_valid(),
    {
        proof {
            use_type_invariant(self);
        }
        self.year
    }

    /// The month, 1 to 12.
    #[verifier::when_used_as_spec(month_of)]
    pub fn month(&self) -> (month: u32)
        ensures
            month == self.month_of(),
            self.is_valid(),
    {
        proof {
            use_type_invariant(self);
        }
        self.month
    }

    /// The day of the month, from 1.
    #[verifier::when_used_as_spec(day_of)]
    pub fn day(&self) -> (day: u32)
        ensures
            day == self.day_of(),
            self.is_valid(),
    {
        proof {
            use_type_invariant(self);
        }
        self.day
    }

    /// The date as IMAP writes it in a search: `5-Jan-2020`.
    pub fn imap_text(&self) -> (text: String)
        ensures
            text@ == date_text(self.year_of() as int, self.month_of() as int, self.day_of() as int),
    {
        proof {
            use_type_invariant(self);
        }
        chrono_date_text(self.year, self.month, self.day).unwrap()
    }
}

/// Reads a date written as year, month and day with `-` between them, as in
/// `2020-01-05`.
pub fn parse_date(text: &str) -> (date: Result<CutoffDate, DateError>)
    ensures
        match date {
            Ok(d) => parsed_date(text@) == Some((d.year_of(), d.month_of(), d.day_of())),
            Err(_) => parsed_date(text@) is None,
        },
{
    match chrono_parse_date(text) {
        Ok(ymd) => Ok(CutoffDate { year: ymd.0, month: ymd.1, day: ymd.2 }),
        Err(cause) => Err(DateError { cause }),
    }
}

} // verus!
