//! Dates and times in UTC.

use vstd::arithmetic::div_mod::{lemma_fundamental_div_mod, lemma_fundamental_div_mod_converse};
use vstd::prelude::*;

verus! {

/// The Unix timestamp of the first second of the year -9999.
pub const MIN_TIMESTAMP: i64 = -377_705_116_800;

/// The Unix timestamp of the last second of the year 9999.
pub const MAX_TIMESTAMP: i64 = 253_402_300_799;

/// A date of the proleptic Gregorian calendar and a time of day, in UTC.
#[derive(Clone, Copy, PartialEq, Eq, Debug, Structural)]
pub struct UtcTime {
    pub year: i32,
    pub month: u8,
    pub day: u8,
    pub hour: u8,
    pub minute: u8,
    pub second: u8,
}

/// Whether a year has 366 days.
pub open spec fn is_leap(year: int) -> bool {
    year % 4 == 0 && (year % 100 != 0 || year % 400 == 0)
}

/// How many days a month has.
pub open spec fn month_length(year: int, month: int) -> int {
    if month == 2 {
        if is_leap(year) {
            29
        } else {
            28
        }
    } else if month == 4 || month == 6 || month == 9 || month == 11 {
        30
    } else {
        31
    }
}

/// How many days of a year come before a month.
pub open spec fn days_before_month(year: int, month: int) -> int
    decreases month,
{
    if month <= 1 {
        0
    } else {
        days_before_month(year, month - 1) + month_length(year, month - 1)
    }
}

/// How many days lie between the start of 1970 and the start of a year.
pub open spec fn days_before_year(year: int) -> int {
    365 * (year - 1) + (year - 1) / 4 - (year - 1) / 100 + (year - 1) / 400 - 719162
}

impl UtcTime {
    /// Whether the fields name a day and a second of it.
    pub open spec fn is_valid(self) -> bool {
        &&& -9999 <= self.year <= 9999
        &&& 1 <= self.month <= 12
        &&& 1 <= self.day <= month_length(self.year as int, self.month as int)
        &&& self.hour < 24
        &&& self.minute < 60
        &&& self.second < 60
    }

    /// How many days the date lies after 1970-01-01.
    pub open spec fn days(self) -> int {
        days_before_year(self.year as int) + days_before_month(self.year as int, self.month as int)
            + self.day - 1
    }

    /// The Unix timestamp.
    pub open spec fn timestamp(self) -> int {
        self.days() * 86400 + self.hour * 3600 + self.minute * 60 + self.second
    }

    /// The time of a Unix timestamp, for the years -9999 to 9999.
    pub fn from_unix_timestamp(timestamp: i64) -> (result: Option<UtcTime>)
        ensures
            match result {
                Some(time) => time.is_valid() && time.timestamp() == timestamp,
                None => true,
            },
            result is Some <==> MIN_TIMESTAMP <= timestamp <= MAX_TIMESTAMP,
    {
        let result = time_of(timestamp);
        proof {
            if let Some(time) = result {
                lemma_timestamp_range(time);
            }
        }
        result
    }
}

/// The time of a Unix timestamp, by `time::OffsetDateTime::from_unix_timestamp`.
///
/// Believed of it, without its feature for larger dates: it accepts the timestamps of the years -9999
/// to 9999 and no others, and the date and time of day that it gives for one, in UTC, are the valid
/// ones that have that timestamp.
#[verifier::external_body]
fn time_of(timestamp: i64) -> (result: Option<UtcTime>)
    ensures
        match result {
            Some(time) => time.is_valid() && time.timestamp() == timestamp,
            None => !(MIN_TIMESTAMP <= timestamp <= MAX_TIMESTAMP),
        },
{
    match time::OffsetDateTime::from_unix_timestamp(timestamp) {
        Ok(time) => Some(
            UtcTime {
                year: time.year(),
                month: u8::from(time.month()),
                day: time.day(),
                hour: time.hour(),
                minute: time.minute(),
                second: time.second(),
            },
        ),
        Err(_) => None,
    }
}

/// The current time, by `time::OffsetDateTime::now_utc`.
///
/// Believed of it: the date and time of day it gives are valid. Which ones they are depends on the
/// clock of the machine, and is not said. It panics where that clock is past the year 9999.
#[verifier::external_body]
pub(crate) fn now() -> (time: UtcTime)
    ensures
        time.is_valid(),
{
    let time = time::OffsetDateTime::now_utc();
    UtcTime {
        year: time.year(),
        month: u8::from(time.month()),
        day: time.day(),
        hour: time.hour(),
        minute: time.minute(),
        second: time.second(),
    }
}

/// A later year starts no earlier than the earlier one ends.
proof fn lemma_years(earlier: int, later: int)
    requires
        earlier < later,
    ensures
        days_before_year(later) >= days_before_year(earlier) + days_before_month(earlier, 12) + 31,
        is_leap(earlier) ==> days_before_month(earlier, 12) == 335,
        !is_leap(earlier) ==> days_before_month(earlier, 12) == 334,
    decreases later - earlier,
{
    reveal_with_fuel(days_before_month, 13);
    if later > earlier + 1 {
        lemma_years(earlier, later - 1);
    }
}

/// A later month of a year starts no earlier than the earlier one ends.
proof fn lemma_months(year: int, earlier: int, later: int)
    requires
        1 <= earlier < later,
    ensures
        days_before_month(year, later) >= days_before_month(year, earlier) + month_length(
            year,
            earlier,
        ),
    decreases later - earlier,
{
    if later > earlier + 1 {
        lemma_months(year, earlier, later - 1);
    }
}

/// The date of a day of the calendar is unique.
proof fn lemma_days_order(a: UtcTime, b: UtcTime)
    requires
        a.is_valid(),
        b.is_valid(),
        a.year < b.year || (a.year == b.year && a.month < b.month),
    ensures
        a.days() < b.days(),
{
    if a.year < b.year {
        lemma_years(a.year as int, b.year as int);
        if a.month < 12 {
            lemma_months(a.year as int, a.month as int, 12);
        }
        if b.month > 1 {
            lemma_months(b.year as int, 1, b.month as int);
        }
    } else {
        lemma_months(a.year as int, a.month as int, b.month as int);
    }
}

/// The timestamps of valid times lie between those of the first and the last.
proof fn lemma_timestamp_range(time: UtcTime)
    requires
        time.is_valid(),
    ensures
        MIN_TIMESTAMP <= time.timestamp() <= MAX_TIMESTAMP,
{
    let first = UtcTime { year: -9999i32 as i32, month: 1, day: 1, hour: 0, minute: 0, second: 0 };
    let last = UtcTime { year: 9999, month: 12, day: 31, hour: 23, minute: 59, second: 59 };
    assert(first.timestamp() == MIN_TIMESTAMP);
    assert(last.timestamp() == MAX_TIMESTAMP) by {
        lemma_years(9999, 10000);
    }
    if time.year > -9999 || time.month > 1 {
        lemma_days_order(first, time);
    }
    if time.year < 9999 || time.month < 12 {
        lemma_days_order(time, last);
    }
}

/// No two times have the same timestamp.
pub proof fn law_timestamp_is_unique(a: UtcTime, b: UtcTime)
    requires
        a.is_valid(),
        b.is_valid(),
        a.timestamp() == b.timestamp(),
    ensures
        a == b,
{
    assert(a.days() == b.days());
    if a.year < b.year || (a.year == b.year && a.month < b.month) {
        lemma_days_order(a, b);
    }
    if b.year < a.year || (a.year == b.year && b.month < a.month) {
        lemma_days_order(b, a);
    }
}

/// The first second of 1970 is the zeroth, a leap year has one day more, and the seconds of a day
/// are counted by hours, minutes and seconds.
pub proof fn law_timestamp_of_day(time: UtcTime)
    ensures
        (UtcTime { year: 1970, month: 1, day: 1, hour: 0, minute: 0, second: 0 }).timestamp() == 0,
        time.timestamp() == (UtcTime { hour: 0, minute: 0, second: 0, ..time }).timestamp() + 60 * (
        60 * time.hour + time.minute) + time.second,
{
}

/// One day later, a date has one more day: the next of its month, or the first of the next month, or
/// the first of the next year. Months have the lengths of the calendar, and a year is a leap year
/// every four years, but for those of a century that four does not divide.
pub proof fn law_next_day(time: UtcTime)
    requires
        time.is_valid(),
        time.year < 9999,
    ensures
        ({
            let year = time.year as int;
            let leap = year % 400 == 0 || (year % 4 == 0 && year % 100 != 0);
            let last = match time.month {
                4 | 6 | 9 | 11 => 30int,
                2 => if leap {
                    29int
                } else {
                    28int
                },
                _ => 31int,
            };
            let next = if time.day < last {
                UtcTime { day: (time.day + 1) as u8, ..time }
            } else if time.month < 12 {
                UtcTime { day: 1, month: (time.month + 1) as u8, ..time }
            } else {
                UtcTime { day: 1, month: 1, year: (time.year + 1) as i32, ..time }
            };
            &&& time.day <= last
            &&& next.is_valid()
            &&& next.timestamp() == time.timestamp() + 86400
        }),
{
    if time.month == 12 {
        lemma_year_length(time.year as int);
    }
}

proof fn lemma_year_length(year: int)
    ensures
        days_before_year(year + 1) == days_before_year(year) + days_before_month(year, 12) + 31,
        days_before_month(year + 1, 1) == 0,
{
    lemma_years(year, year + 1);
    lemma_quotient_steps(year, 4);
    lemma_quotient_steps(year, 100);
    lemma_quotient_steps(year, 400);
    assert(days_before_year(year + 1) == days_before_year(year) + if is_leap(year) {
        366int
    } else {
        365
    });
}

/// A quotient grows by one where the divisor divides, and not otherwise.
proof fn lemma_quotient_steps(value: int, divisor: int)
    requires
        divisor > 1,
    ensures
        value / divisor == (value - 1) / divisor + if value % divisor == 0 {
            1int
        } else {
            0
        },
{
    let quotient = value / divisor;
    let remainder = value % divisor;
    lemma_fundamental_div_mod(value, divisor);
    assert(value == quotient * divisor + remainder) by (nonlinear_arith)
        requires
            value == divisor * quotient + remainder,
    ;
    if remainder == 0 {
        assert(value - 1 == (quotient - 1) * divisor + (divisor - 1)) by (nonlinear_arith)
            requires
                value == quotient * divisor + remainder,
                remainder == 0,
        ;
        lemma_fundamental_div_mod_converse(value - 1, divisor, quotient - 1, divisor - 1);
    } else {
        lemma_fundamental_div_mod_converse(value - 1, divisor, quotient, remainder - 1);
    }
}

} // verus!
