//! Points in time as seconds since the beginning of 1970, UTC.

use vstd::prelude::*;

use chrono::{DateTime, TimeZone, Utc};

use crate::text::{four_digits, two_digits};

verus! {

/// A date and a time of day, UTC.
#[derive(Clone, Copy, Debug, PartialEq, Eq, Structural)]
pub struct Civil {
    pub year: u16,
    pub month: u8,
    pub day: u8,
    pub hour: u8,
    pub minute: u8,
    pub second: u8,
}

pub open spec fn is_leap(year: int) -> bool {
    year % 4 == 0 && (year % 100 != 0 || year % 400 == 0)
}

pub open spec fn days_in_month(year: int, month: int) -> int {
    if month == 2 {
        if is_leap(year) {
            29
        } else {
            28
        }
    } else if month == 4 || month == 6 || month == 9 || month == 11 {
        30
    } else {
        31
    }
}

/// The days of a year that lie before one of its months.
pub open spec fn days_before_month(year: int, month: int) -> int
    decreases month,
{
    if month <= 1 {
        0
    } else {
        days_before_month(year, month - 1) + days_in_month(year, month - 1)
    }
}

/// The days from the beginning of year one, in the Gregorian calendar, to the
/// beginning of a year.
pub open spec fn days_before_year(year: int) -> int {
    365 * (year - 1) + (year - 1) / 4 - (year - 1) / 100 + (year - 1) / 400
}

/// The date and the time exist.
pub open spec fn is_valid(c: Civil) -> bool {
    &&& 1 <= c.month <= 12
    &&& 1 <= c.day <= days_in_month(c.year as int, c.month as int)
    &&& c.hour < 24
    &&& c.minute < 60
    &&& c.second < 60
}

/// The seconds from the beginning of 1970 to a date and time.
pub open spec fn seconds_of(c: Civil) -> int {
    let days = days_before_year(c.year as int) - days_before_year(1970) + days_before_month(
        c.year as int,
        c.month as int,
    ) + c.day - 1;
    ((days * 24 + c.hour) * 60 + c.minute) * 60 + c.second
}

/// The range of times that the calendar can hold: the years from minus 262143 to
/// 262142.
pub open spec fn in_calendar(seconds: int) -> bool {
    -8_334_601_228_800 <= seconds < 8_210_266_876_800
}

/// What `chrono` writes for a time in the format `%Y%m%d%H%M%S`.
pub uninterp spec fn compact_time_text(seconds: int) -> Seq<char>;

/// What `chrono` writes for a time as RFC 3339.
pub uninterp spec fn rfc3339_time_text(seconds: int) -> Seq<char>;

/// The seconds of a date and time, by `chrono`'s `Utc.with_ymd_and_hms`, which
/// answers with one instant for a date and time of the proleptic Gregorian
/// calendar that exists, and with none otherwise.
#[verifier::external_body]
fn utc_seconds(c: Civil) -> (seconds: Option<i64>)
    ensures
        match seconds {
            Some(t) => is_valid(c) && t == seconds_of(c),
            None => !is_valid(c),
        },
{
    let (y, mo, d) = (i32::from(c.year), u32::from(c.month), u32::from(c.day));
    let (h, mi, s) = (u32::from(c.hour), u32::from(c.minute), u32::from(c.second));
    Utc.with_ymd_and_hms(y, mo, d, h, mi, s).single().map(|t| t.timestamp())
}

/// When a date and time is, or nothing if there is no such date or time.
pub fn instant(c: Civil) -> (seconds: Option<i64>)
    ensures
        match seconds {
            Some(t) => is_valid(c) && t == seconds_of(c),
            None => !is_valid(c),
        },
{
    utc_seconds(c)
}

/// Fourteen digits: year, month, day, hour, minute and second.
pub open spec fn compact_text(c: Civil) -> Seq<char> {
    four_digits(c.year as int) + two_digits(c.month as int) + two_digits(c.day as int) + two_digits(
        c.hour as int,
    ) + two_digits(c.minute as int) + two_digits(c.second as int)
}

/// The date and time as RFC 3339 writes it.
pub open spec fn rfc3339_text(c: Civil) -> Seq<char> {
    four_digits(c.year as int) + seq!['-'] + two_digits(c.month as int) + seq!['-'] + two_digits(
        c.day as int,
    ) + seq!['T'] + two_digits(c.hour as int) + seq![':'] + two_digits(c.minute as int)
        + seq![':'] + two_digits(c.second as int) + seq!['+', '0', '0', ':', '0', '0']
}

/// Writes a time with `chrono`'s `DateTime::format` and the format
/// `%Y%m%d%H%M%S`. The text depends on the time alone. It is stated for the
/// years up to 9999, whose numbers have four digits; of other years nothing
/// more is said.
#[verifier::external_body]
pub(crate) fn compact_time(seconds: i64) -> (text: String)
    requires
        in_calendar(seconds as int),
    ensures
        text@ == compact_time_text(seconds as int),
        forall|c: Civil|
            is_valid(c) && c.year <= 9999 && #[trigger] seconds_of(c) == seconds ==> text@
                == compact_text(c),
{
    DateTime::from_timestamp(seconds, 0).unwrap().format("%Y%m%d%H%M%S").to_string()
}

/// Writes a time with `chrono`'s `DateTime::to_rfc3339`. The text depends on the
/// time alone, and is stated for the years up to 9999.
#[verifier::external_body]
pub(crate) fn rfc3339_time(seconds: i64) -> (text: String)
    requires
        in_calendar(seconds as int),
    ensures
        text@ == rfc3339_time_text(seconds as int),
        forall|c: Civil|
            is_valid(c) && c.year <= 9999 && #[trigger] seconds_of(c) == seconds ==> text@
                == rfc3339_text(c),
{
    DateTime::from_timestamp(seconds, 0).unwrap().to_rfc3339()
}

/// Counting on from day to day: the next day of a month is a day later, and so are the
/// first of the next month after the last day of a month and the first of January after
/// the last of December. The count begins with 1970.
pub proof fn lemma_next_day(c: Civil)
    requires
        is_valid(c),
        c.year < 65535,
    ensures
        c.day < days_in_month(c.year as int, c.month as int) ==> seconds_of(
            Civil { day: (c.day + 1) as u8, ..c },
        ) == seconds_of(c) + 86400,
        c.day == days_in_month(c.year as int, c.month as int) && c.month < 12 ==> seconds_of(
            Civil { month: (c.month + 1) as u8, day: 1, ..c },
        ) == seconds_of(c) + 86400,
        c.day == 31 && c.month == 12 ==> seconds_of(
            Civil { year: (c.year + 1) as u16, month: 1, day: 1, ..c },
        ) == seconds_of(c) + 86400,
        seconds_of(Civil { year: 1970, month: 1, day: 1, hour: 0, minute: 0, second: 0 }) == 0,
{
    if c.day == 31 && c.month == 12 {
        lemma_year_length(c.year as int);
    }
}

/// The time of day, in seconds since midnight.
pub proof fn lemma_time_of_day(c: Civil)
    ensures
        seconds_of(c) == seconds_of(Civil { hour: 0, minute: 0, second: 0, ..c }) + 3600 * c.hour
            + 60 * c.minute + c.second,
{
}

/// The lengths of the months and of a year. Every fourth year is longer by a day, but of
/// the years that end a century only every fourth.
pub proof fn lemma_months(year: int, month: int)
    requires
        1 <= month <= 12,
    ensures
        month == 2 ==> days_in_month(year, month) == if year % 400 == 0 || (year % 4 == 0 && year
            % 100 != 0) {
            29int
        } else {
            28int
        },
        month == 4 || month == 6 || month == 9 || month == 11 ==> days_in_month(year, month) == 30,
        month == 1 || month == 3 || month == 5 || month == 7 || month == 8 || month == 10 || month
            == 12 ==> days_in_month(year, month) == 31,
        days_before_year(year + 1) - days_before_year(year) == if year % 400 == 0 || (year % 4 == 0
            && year % 100 != 0) {
            366int
        } else {
            365int
        },
{
    lemma_year_length(year);
    assert(days_before_month(year, 12) == 306 + days_in_month(year, 2)) by {
        reveal_with_fuel(days_before_month, 12);
    }
}

proof fn lemma_year_length(year: int)
    ensures
        days_before_year(year + 1) == days_before_year(year) + days_before_month(year, 12) + 31,
{
    reveal_with_fuel(days_before_month, 12);
}

} // verus!
