//! Calendar timestamps for games.
//!
//! The feed carries each game's start time as a 14-digit decimal code,
//! `YYYYMMDDHHMMSS`. This module holds the library's own timestamp type,
//! decoded from that code and validated against the Gregorian calendar,
//! together with the day-of-year and epoch-second computations that the
//! time-based queries use.

use vstd::prelude::*;

verus! {

/// An absolute UTC timestamp, second precision, held as plain calendar
/// fields. `is_valid` is the type's invariant; every `DateTime` built by
/// `DateTime::from_code` satisfies it.
#[derive(Clone, Copy, PartialEq, Eq, Structural, Debug)]
pub struct DateTime {
    pub year: u16,
    pub month: u8,
    pub day: u8,
    pub hour: u8,
    pub minute: u8,
    pub second: u8,
}

/// Gregorian leap-year rule.
pub open spec fn spec_is_leap_year(y: int) -> bool {
    y % 4 == 0 && (y % 100 != 0 || y % 400 == 0)
}

/// Number of days in the given month of the given year.
pub open spec fn spec_days_in_month(y: int, m: int) -> int {
    if m == 2 {
        if spec_is_leap_year(y) {
            29
        } else {
            28
        }
    } else if m == 4 || m == 6 || m == 9 || m == 11 {
        30
    } else {
        31
    }
}

/// Days in the months strictly before month `m` (1-based) of year `y`.
pub open spec fn spec_days_before_month(y: int, m: int) -> int
    decreases m,
{
    if m <= 1 {
        0
    } else {
        spec_days_before_month(y, m - 1) + spec_days_in_month(y, m - 1)
    }
}

impl DateTime {
    /// The type invariant: fields form a real calendar date and time.
    pub open spec fn is_valid(self) -> bool {
        &&& 1000 <= self.year <= 9999
        &&& 1 <= self.month <= 12
        &&& 1 <= self.day <= spec_days_in_month(self.year as int, self.month as int)
        &&& self.hour < 24
        &&& self.minute < 60
        &&& self.second < 60
    }

    /// Day of the year, starting at 1 for the first of January.
    pub open spec fn spec_ordinal(self) -> int {
        spec_days_before_month(self.year as int, self.month as int) + self.day as int
    }

    /// Day count since the first of January of year 1 (that day is 0).
    pub open spec fn spec_day_number(self) -> int {
        spec_days_before_year(self.year as int) + spec_days_before_month(
            self.year as int,
            self.month as int,
        ) + self.day - 1
    }

    /// Seconds since the Unix epoch; negative before 1970.
    pub open spec fn spec_unix_seconds(self) -> int {
        (self.spec_day_number() - EPOCH_DAY_NUMBER) * 86400 + self.hour * 3600 + self.minute * 60
            + self.second
    }
}

/// Day number of 1970-01-01, the Unix epoch, counted from 0001-01-01.
pub const EPOCH_DAY_NUMBER: i64 = 719162;

/// Leap years among the years 1 to `y - 1`.
pub open spec fn spec_leap_days_before(y: int) -> int {
    (y - 1) / 4 - (y - 1) / 100 + (y - 1) / 400
}

/// Days in the years 1 to `y - 1`.
pub open spec fn spec_days_before_year(y: int) -> int {
    365 * (y - 1) + spec_leap_days_before(y)
}

/// The calendar fields packed into a 14-digit `YYYYMMDDHHMMSS` code.
pub open spec fn spec_datetime_of_code(code: u64) -> DateTime {
    DateTime {
        year: (code / 10_000_000_000) as u16,
        month: ((code / 100_000_000) % 100) as u8,
        day: ((code / 1_000_000) % 100) as u8,
        hour: ((code / 10_000) % 100) as u8,
        minute: ((code / 100) % 100) as u8,
        second: (code % 100) as u8,
    }
}

/// A start-time code is accepted exactly when it has 14 decimal digits and
/// its fields form a valid date and time.
pub open spec fn spec_code_valid(code: u64) -> bool {
    &&& 10_000_000_000_000 <= code < 100_000_000_000_000
    &&& spec_datetime_of_code(code).is_valid()
}

/// The values of `spec_days_before_month` for every month, unrolled.
pub proof fn lemma_days_before_month_values(y: int)
    ensures
        spec_days_before_month(y, 1) == 0,
        spec_days_before_month(y, 2) == 31,
        spec_days_before_month(y, 3) == 59 + if spec_is_leap_year(y) { 1int } else { 0 },
        spec_days_before_month(y, 4) == 90 + if spec_is_leap_year(y) { 1int } else { 0 },
        spec_days_before_month(y, 5) == 120 + if spec_is_leap_year(y) { 1int } else { 0 },
        spec_days_before_month(y, 6) == 151 + if spec_is_leap_year(y) { 1int } else { 0 },
        spec_days_before_month(y, 7) == 181 + if spec_is_leap_year(y) { 1int } else { 0 },
        spec_days_before_month(y, 8) == 212 + if spec_is_leap_year(y) { 1int } else { 0 },
        spec_days_before_month(y, 9) == 243 + if spec_is_leap_year(y) { 1int } else { 0 },
        spec_days_before_month(y, 10) == 273 + if spec_is_leap_year(y) { 1int } else { 0 },
        spec_days_before_month(y, 11) == 304 + if spec_is_leap_year(y) { 1int } else { 0 },
        spec_days_before_month(y, 12) == 334 + if spec_is_leap_year(y) { 1int } else { 0 },
{
    reveal_with_fuel(spec_days_before_month, 13);
}

/// Whether `y` is a Gregorian leap year.
pub fn is_leap_year(y: u16) -> (r: bool)
    ensures
        r == spec_is_leap_year(y as int),
{
    y % 4 == 0 && (y % 100 != 0 || y % 400 == 0)
}

/// Number of days in month `m` of year `y`.
pub fn days_in_month(y: u16, m: u8) -> (r: u8)
    ensures
        r == spec_days_in_month(y as int, m as int),
{
    if m == 2 {
        if is_leap_year(y) {
            29
        } else {
            28
        }
    } else if m == 4 || m == 6 || m == 9 || m == 11 {
        30
    } else {
        31
    }
}

impl DateTime {
    /// Decodes a feed start-time code.
    ///
    /// Returns the packed calendar fields exactly when the code has 14
    /// decimal digits and the fields form a valid date and time; every
    /// other code is rejected.
    pub fn from_code(code: u64) -> (r: Option<DateTime>)
        ensures
            spec_code_valid(code) ==> r == Some(spec_datetime_of_code(code)),
            !spec_code_valid(code) ==> r is None,
            r matches Some(dt) ==> dt.is_valid(),
    {
        if code < 10_000_000_000_000 || code >= 100_000_000_000_000 {
            return None;
        }
        let year = (code / 10_000_000_000) as u16;
        let month = ((code / 100_000_000) % 100) as u8;
        let day = ((code / 1_000_000) % 100) as u8;
        let hour = ((code / 10_000) % 100) as u8;
        let minute = ((code / 100) % 100) as u8;
        let second = (code % 100) as u8;
        if month < 1 || month > 12 {
            return None;
        }
        if day < 1 || day > days_in_month(year, month) {
            return None;
        }
        if hour >= 24 || minute >= 60 || second >= 60 {
            return None;
        }
        Some(DateTime { year, month, day, hour, minute, second })
    }

    /// Whether the fields form a real calendar date and time.
    pub fn valid(&self) -> (r: bool)
        ensures
            r == self.is_valid(),
    {
        1000 <= self.year && self.year <= 9999 && 1 <= self.month && self.month <= 12
            && 1 <= self.day && self.day <= days_in_month(self.year, self.month) && self.hour < 24
            && self.minute < 60 && self.second < 60
    }

    /// Day of the year, 1 for the first of January, at most 366.
    pub fn ordinal(&self) -> (r: u16)
        requires
            self.is_valid(),
        ensures
            r == self.spec_ordinal(),
            1 <= r <= 366,
    {
        proof {
            lemma_days_before_month_values(self.year as int);
        }
        let leap: u16 = if is_leap_year(self.year) {
            1
        } else {
            0
        };
        let before: u16 = match self.month {
            1 => 0,
            2 => 31,
            3 => 59 + leap,
            4 => 90 + leap,
            5 => 120 + leap,
            6 => 151 + leap,
            7 => 181 + leap,
            8 => 212 + leap,
            9 => 243 + leap,
            10 => 273 + leap,
            11 => 304 + leap,
            _ => 334 + leap,
        };
        before + self.day as u16
    }

    /// Seconds since the Unix epoch, negative before 1970.
    pub fn unix_seconds(&self) -> (r: i64)
        requires
            self.is_valid(),
        ensures
            r == self.spec_unix_seconds(),
    {
        proof {
            lemma_days_before_month_values(self.year as int);
        }
        let y: u64 = self.year as u64;
        let leaps: u64 = (y - 1) / 4 - (y - 1) / 100 + (y - 1) / 400;
        let leap: u64 = if is_leap_year(self.year) {
            1
        } else {
            0
        };
        let before_month: u64 = match self.month {
            1 => 0,
            2 => 31,
            3 => 59 + leap,
            4 => 90 + leap,
            5 => 120 + leap,
            6 => 151 + leap,
            7 => 181 + leap,
            8 => 212 + leap,
            9 => 243 + leap,
            10 => 273 + leap,
            11 => 304 + leap,
            _ => 334 + leap,
        };
        let day_number: u64 = 365 * (y - 1) + leaps + before_month + (self.day as u64) - 1;
        let tod: i64 = (self.hour as i64) * 3600 + (self.minute as i64) * 60 + (self.second as i64);
        (day_number as i64 - EPOCH_DAY_NUMBER) * 86400 + tod
    }
}

} // verus!
