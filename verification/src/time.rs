//! Timestamps, calendar days, weekdays and clock times as plain integers.
//!
//! A timestamp is a count of seconds since 1970-01-01T00:00:00, a calendar
//! day is a count of days since 1970-01-01, and a duration is a count of
//! seconds. The calendar itself (which civil date is which day, and which
//! weekday a day falls on) is taken from `chrono`.

use chrono::Datelike;
use vstd::prelude::*;

verus! {

/// Seconds in one calendar day.
pub const SECONDS_PER_DAY: i64 = 86_400;

/// The earliest calendar day that `chrono` can represent (-262143-01-01).
pub const MIN_DAY: i64 = -96_465_292;

/// The latest calendar day that `chrono` can represent (+262142-12-31).
pub const MAX_DAY: i64 = 95_026_236;

/// Midnight at the start of [`MIN_DAY`].
pub const MIN_TIMESTAMP: i64 = -8_334_601_228_800;

/// The last second of [`MAX_DAY`].
pub const MAX_TIMESTAMP: i64 = 8_210_266_876_799;

/// The longest duration, in seconds, that `chrono` can represent.
pub const MAX_DURATION: i64 = 9_223_372_036_854_775;

/// A calendar day inside the supported range.
pub open spec fn valid_day(d: int) -> bool {
    MIN_DAY <= d <= MAX_DAY
}

/// A timestamp inside the supported range.
pub open spec fn valid_timestamp(t: int) -> bool {
    MIN_TIMESTAMP <= t <= MAX_TIMESTAMP
}

/// The calendar day that holds timestamp `t`.
pub open spec fn day_of(t: int) -> int {
    t / 86_400
}

/// The timestamp of midnight at the start of day `d`.
pub open spec fn day_start(d: int) -> int {
    d * 86_400
}

/// Every valid timestamp lies on a valid day, between that day's midnight
/// and the next.
pub proof fn lemma_day_of_bounds(t: int)
    requires
        valid_timestamp(t),
    ensures
        valid_day(day_of(t)),
        day_start(day_of(t)) <= t < day_start(day_of(t) + 1),
{
}

/// Days grow with timestamps.
pub proof fn lemma_day_of_monotonic(s: int, t: int)
    requires
        s <= t,
    ensures
        day_of(s) <= day_of(t),
{
}

/// Whether `t` is a timestamp inside the supported range.
pub fn is_valid_timestamp(t: i64) -> (valid: bool)
    ensures
        valid == valid_timestamp(t as int),
{
    MIN_TIMESTAMP <= t && t <= MAX_TIMESTAMP
}

/// Computes the calendar day that holds `t`, rounding towards the past.
pub fn day_index(t: i64) -> (d: i64)
    ensures
        d == day_of(t as int),
{
    let q: i64 = t / SECONDS_PER_DAY;
    let r: i64 = t % SECONDS_PER_DAY;
    if r < 0 {
        q - 1
    } else {
        q
    }
}

/// A day of the week.
#[derive(Debug, Clone, Copy, PartialEq, Eq, Structural, Hash)]
pub enum Weekday {
    Mon,
    Tue,
    Wed,
    Thu,
    Fri,
    Sat,
    Sun,
}

impl Weekday {
    /// Days since Monday, from 0 to 6.
    pub open spec fn index(self) -> int {
        match self {
            Weekday::Mon => 0,
            Weekday::Tue => 1,
            Weekday::Wed => 2,
            Weekday::Thu => 3,
            Weekday::Fri => 4,
            Weekday::Sat => 5,
            Weekday::Sun => 6,
        }
    }

    /// The weekday that lies `i` days after a Monday, for `i` from 0 to 6.
    pub open spec fn from_index(i: int) -> Weekday {
        if i == 0 {
            Weekday::Mon
        } else if i == 1 {
            Weekday::Tue
        } else if i == 2 {
            Weekday::Wed
        } else if i == 3 {
            Weekday::Thu
        } else if i == 4 {
            Weekday::Fri
        } else if i == 5 {
            Weekday::Sat
        } else {
            Weekday::Sun
        }
    }

    /// Days since Monday, from 0 to 6.
    pub fn num_days_from_monday(&self) -> (n: u32)
        ensures
            n == self.index(),
    {
        match self {
            Weekday::Mon => 0,
            Weekday::Tue => 1,
            Weekday::Wed => 2,
            Weekday::Thu => 3,
            Weekday::Fri => 4,
            Weekday::Sat => 5,
            Weekday::Sun => 6,
        }
    }

    /// The weekday on which calendar day `day` falls.
    pub fn of_day(day: i64) -> (w: Weekday)
        requires
            valid_day(day as int),
        ensures
            w == weekday_of_day(day as int),
    {
        chrono_weekday(day)
    }
}

/// The weekday of calendar day `d`: day 0, 1970-01-01, was a Thursday, and
/// the seven-day cycle has no gaps.
pub open spec fn weekday_of_day(d: int) -> Weekday {
    Weekday::from_index((d + 3) % 7)
}

/// Calls `chrono::NaiveDate::from_epoch_days` and `Datelike::weekday`.
///
/// Trusted: `from_epoch_days` counts days in the proleptic Gregorian
/// calendar with 1970-01-01 as day 0, and the weekday that `chrono` reports
/// for a date is the one that the unbroken seven-day cycle through Thursday
/// 1970-01-01 gives. The day is required to be in `chrono`'s range, so the
/// date exists.
#[verifier::external_body]
fn chrono_weekday(day: i64) -> (w: Weekday)
    requires
        valid_day(day as int),
    ensures
        w == weekday_of_day(day as int),
{
    match chrono::NaiveDate::from_epoch_days(day as i32).unwrap().weekday() {
        chrono::Weekday::Mon => Weekday::Mon,
        chrono::Weekday::Tue => Weekday::Tue,
        chrono::Weekday::Wed => Weekday::Wed,
        chrono::Weekday::Thu => Weekday::Thu,
        chrono::Weekday::Fri => Weekday::Fri,
        chrono::Weekday::Sat => Weekday::Sat,
        chrono::Weekday::Sun => Weekday::Sun,
    }
}

/// The calendar day of the civil date `year`-`month`-`day` in the proleptic
/// Gregorian calendar, as `chrono` computes it; `None` where no such date
/// exists or it is out of `chrono`'s range.
pub uninterp spec fn civil_day(year: int, month: int, day: int) -> Option<int>;

/// Calls `chrono::NaiveDate::from_ymd_opt` and `NaiveDate::to_epoch_days`.
///
/// Trusted: the result is a function of the three numbers alone, and a day
/// that comes back lies between `NaiveDate::MIN` and `NaiveDate::MAX`.
#[verifier::external_body]
fn chrono_civil_day(year: i32, month: u32, day: u32) -> (r: Option<i64>)
    ensures
        match r {
            Some(n) => civil_day(year as int, month as int, day as int) == Some(n as int)
                && valid_day(n as int),
            None => civil_day(year as int, month as int, day as int) is None,
        },
{
    match chrono::NaiveDate::from_ymd_opt(year, month, day) {
        Some(date) => Some(date.to_epoch_days() as i64),
        None => None,
    }
}

/// A calendar date, held as its day count since 1970-01-01.
#[derive(Debug, Clone, Copy, PartialEq, Eq, Structural, Hash)]
pub struct Date {
    pub days: i64,
}

impl Date {
    /// The date lies in the supported range.
    pub open spec fn wf(&self) -> bool {
        valid_day(self.days as int)
    }

    /// Whether the date lies in the supported range.
    pub fn check(&self) -> (valid: bool)
        ensures
            valid == self.wf(),
    {
        MIN_DAY <= self.days && self.days <= MAX_DAY
    }

    /// The date `year`-`month`-`day`, or `None` where the calendar has no
    /// such date.
    pub fn from_ymd(year: i32, month: u32, day: u32) -> (r: Option<Date>)
        ensures
            match r {
                Some(date) => civil_day(year as int, month as int, day as int) == Some(
                    date.days as int,
                ) && date.wf(),
                None => civil_day(year as int, month as int, day as int) is None,
            },
    {
        match chrono_civil_day(year, month, day) {
            Some(days) => Some(Date { days }),
            None => None,
        }
    }

    /// The timestamp of midnight at the start of this date.
    pub fn midnight(&self) -> (t: i64)
        requires
            self.wf(),
        ensures
            t == day_start(self.days as int),
            valid_timestamp(t as int),
    {
        self.days * SECONDS_PER_DAY
    }

    /// The timestamp of the given clock time on this date.
    pub fn and_time(&self, time: ClockTime) -> (t: i64)
        requires
            self.wf(),
            time.wf(),
        ensures
            t == day_start(self.days as int) + time.secs,
            valid_timestamp(t as int),
    {
        self.days * SECONDS_PER_DAY + time.secs as i64
    }

    /// The weekday on which this date falls.
    pub fn weekday(&self) -> (w: Weekday)
        requires
            self.wf(),
        ensures
            w == weekday_of_day(self.days as int),
    {
        Weekday::of_day(self.days)
    }
}

/// A time of day, held as seconds since midnight.
#[derive(Debug, Clone, Copy, PartialEq, Eq, Structural, Hash)]
pub struct ClockTime {
    pub secs: u32,
}

impl ClockTime {
    /// The time lies within one day.
    pub open spec fn wf(&self) -> bool {
        self.secs < 86_400
    }

    /// Whether the time lies within one day.
    pub fn check(&self) -> (valid: bool)
        ensures
            valid == self.wf(),
    {
        self.secs < 86_400
    }

    /// The clock time `hour`:`min`:`sec`, or `None` where one of the three
    /// is out of range.
    pub fn from_hms(hour: u32, min: u32, sec: u32) -> (r: Option<ClockTime>)
        ensures
            r == if hour < 24 && min < 60 && sec < 60 {
                Some(ClockTime { secs: (hour * 3600 + min * 60 + sec) as u32 })
            } else {
                None
            },
            r matches Some(time) ==> time.wf(),
    {
        if hour < 24 && min < 60 && sec < 60 {
            Some(ClockTime { secs: hour * 3600 + min * 60 + sec })
        } else {
            None
        }
    }
}

/// The timestamp of a civil date and clock time, or `None` where the calendar
/// has no such date or the clock no such time.
pub fn timestamp(year: i32, month: u32, day: u32, hour: u32, min: u32, sec: u32) -> (r: Option<i64>)
    ensures
        r == match civil_day(year as int, month as int, day as int) {
            Some(n) if hour < 24 && min < 60 && sec < 60 => Some(
                (day_start(n) + hour * 3600 + min * 60 + sec) as i64,
            ),
            _ => None,
        },
        r matches Some(t) ==> valid_timestamp(t as int),
{
    match Date::from_ymd(year, month, day) {
        Some(date) => match ClockTime::from_hms(hour, min, sec) {
            Some(time) => Some(date.and_time(time)),
            None => None,
        },
        None => None,
    }
}

} // verus!
