//! Dates, times of day and instants.
//!
//! A date is held as a day number of the proleptic Gregorian calendar, so that
//! ordering, differences and rounding are plain integer arithmetic. The
//! calendar itself (which day number a year, month and day have, and the
//! reverse) is chrono's: the functions of this module that cross between day
//! numbers and calendar dates call it. A date of this library is any day
//! that chrono has.

use vstd::prelude::*;
use vstd::string::*;
use chrono::{Datelike, NaiveDate, NaiveTime, Timelike};

verus! {

/// Number of minutes in a day.
pub const MINUTES_PER_DAY: i64 = 1440;

/// Format of a date given on the command line.
pub const FORMAT_DATE: &'static str = "%F";

/// Format of a time of day given on the command line.
pub const FORMAT_TIME: &'static str = "%R";

/// The day number that chrono gives the calendar date `year`-`month`-`day`,
/// or `None` where chrono has no such date.
pub uninterp spec fn days_of_civil(year: i32, month: u32, day: u32) -> Option<i32>;

/// The calendar date (year, month, day) that chrono gives the day number
/// `days`, or `None` where the number is outside of chrono's range.
pub uninterp spec fn civil_of_days(days: i32) -> Option<(i32, u32, u32)>;

/// The number of days from Monday to the weekday that chrono gives the day
/// number `days`.
pub uninterp spec fn weekday_of_days(days: i32) -> Option<u32>;

/// The day number of the date that chrono reads from `text` under `format`.
pub uninterp spec fn date_of_text(text: Seq<char>, format: Seq<char>) -> Option<i32>;

/// The hour and minute of the time of day that chrono reads from `text` under
/// `format`.
pub uninterp spec fn time_of_text(text: Seq<char>, format: Seq<char>) -> Option<(u32, u32)>;

/// chrono's error for a text that it could not read, carried from the
/// reading to its message.
#[verifier::external_type_specification]
#[verifier::external_body]
pub struct ExParseError(chrono::ParseError);

/// Calls `NaiveDate::from_ymd_opt` and takes the day number of the date it
/// returns with `Datelike::num_days_from_ce`. The result is a function of
/// the arguments. Where there is such a date, its day number gives the same
/// year, month and day again: a date of chrono has the fields it was made of,
/// and `from_num_days_from_ce_opt` makes the date of a day number that
/// `num_days_from_ce` counted.
#[verifier::external_body]
fn days_from_civil(year: i32, month: u32, day: u32) -> (r: Option<i32>)
    ensures
        r == days_of_civil(year, month, day),
        r matches Some(days) ==> civil_of_days(days) == Some((year, month, day)),
{
    match NaiveDate::from_ymd_opt(year, month, day) {
        Some(date) => Some(date.num_days_from_ce()),
        None => None,
    }
}

/// Calls `NaiveDate::from_num_days_from_ce_opt` and takes year, month and day
/// of the date it returns. The result is a function of the argument. Where
/// there is such a date, its month is from 1 to 12 and its day from 1 to 31,
/// as `Datelike::month` and `Datelike::day` document, and the date has the
/// day number it was made from: both functions count the days of the
/// proleptic Gregorian calendar with the first of January of the year 1 as
/// day 1.
#[verifier::external_body]
fn civil_from_days(days: i32) -> (r: Option<(i32, u32, u32)>)
    ensures
        r == civil_of_days(days),
        r matches Some(ymd) ==> 1 <= ymd.1 <= 12 && 1 <= ymd.2 <= 31 && days_of_civil(
            ymd.0,
            ymd.1,
            ymd.2,
        ) == Some(days),
{
    match NaiveDate::from_num_days_from_ce_opt(days) {
        Some(date) => Some((date.year(), date.month(), date.day())),
        None => None,
    }
}

/// Calls `NaiveDate::from_num_days_from_ce_opt`, then `Datelike::weekday` and
/// `Weekday::num_days_from_monday` on the date it returns. The result is a
/// function of the argument; there is one exactly where chrono has a date of
/// that day number, and it is one of the seven values from 0 for Monday to 6
/// for Sunday.
#[verifier::external_body]
fn weekday_from_days(days: i32) -> (r: Option<u32>)
    ensures
        r == weekday_of_days(days),
        r.is_some() == civil_of_days(days).is_some(),
        r matches Some(w) ==> w < 7,
{
    match NaiveDate::from_num_days_from_ce_opt(days) {
        Some(date) => Some(date.weekday().num_days_from_monday()),
        None => None,
    }
}

/// Calls `NaiveDate::parse_from_str` and takes the day number of the date it
/// returns. The date read is a function of text and format, and it is a date
/// of chrono, so that chrono has a date of its day number; the error is
/// handed on as it came.
#[verifier::external_body]
fn date_from_text(text: &str, format: &str) -> (r: Result<i32, chrono::ParseError>)
    ensures
        match r {
            Ok(days) => date_of_text(text@, format@) == Some(days) && civil_of_days(
                days,
            ).is_some(),
            Err(_) => date_of_text(text@, format@).is_none(),
        },
{
    match NaiveDate::parse_from_str(text, format) {
        Ok(date) => Ok(date.num_days_from_ce()),
        Err(e) => Err(e),
    }
}

/// Calls `NaiveTime::parse_from_str` and takes hour and minute of the time it
/// returns. The time read is a function of text and format; its hour is
/// from 0 to 23 and its minute from 0 to 59, as `Timelike::hour` and
/// `Timelike::minute` document; the error is handed on as it came.
#[verifier::external_body]
fn time_from_text(text: &str, format: &str) -> (r: Result<(u32, u32), chrono::ParseError>)
    ensures
        match r {
            Ok(hm) => time_of_text(text@, format@) == Some(hm) && hm.0 < 24 && hm.1 < 60,
            Err(_) => time_of_text(text@, format@).is_none(),
        },
{
    match NaiveTime::parse_from_str(text, format) {
        Ok(time) => Ok((time.hour(), time.minute())),
        Err(e) => Err(e),
    }
}

/// Calls `to_string` on a chrono parse error: the message chrono has for it.
#[verifier::external_body]
fn parse_error_message(error: &chrono::ParseError) -> (r: String) {
    error.to_string()
}

/// Whether `days` is a day of the calendar: chrono has a date of that day
/// number, with a month and a day of the month, and gives that date this
/// day number again.
pub open spec fn calendar_day(days: i32) -> bool {
    match civil_of_days(days) {
        Some((year, month, day)) => 1 <= month <= 12 && 1 <= day <= 31 && days_of_civil(
            year,
            month,
            day,
        ) == Some(days),
        None => false,
    }
}

/// Whether the calendar has the date `year`-`month`-`day`: they are a month
/// and a day of the month, chrono has a day number for them, and gives that
/// number this date again.
pub open spec fn civil_date(year: i32, month: u32, day: u32) -> bool {
    &&& 1 <= month <= 12
    &&& 1 <= day <= 31
    &&& match days_of_civil(year, month, day) {
        Some(days) => civil_of_days(days) == Some((year, month, day)),
        None => false,
    }
}

/// A day of the calendar.
#[derive(Clone, Copy, Debug, PartialEq, Eq, Structural)]
pub struct Date {
    /// The day number, with the first of January of the year 1 as day 1.
    pub days: i32,
}

/// A time of day, to the minute.
#[derive(Clone, Copy, Debug, PartialEq, Eq, Structural)]
pub struct Time {
    /// Minutes since midnight.
    pub minutes: u16,
}

/// An instant: a date and a time of day, in local time.
#[derive(Clone, Copy, Debug, PartialEq, Eq, Structural)]
pub struct DateTime {
    /// The day.
    pub date: Date,
    /// The time of that day.
    pub time: Time,
}

impl Date {
    /// A date that the calendar has.
    pub open spec fn wf(self) -> bool {
        calendar_day(self.days)
    }

    /// The date with the day number `days`, for every day number of which
    /// chrono has a date.
    pub fn from_days(days: i32) -> (r: Option<Date>)
        ensures
            r.is_some() == civil_of_days(days).is_some(),
            r.is_some() == calendar_day(days),
            r matches Some(date) ==> date.days == days && date.wf(),
    {
        match civil_from_days(days) {
            Some(_) => Some(Date { days }),
            None => None,
        }
    }

    /// The date `year`-`month`-`day`, for every date that chrono has.
    pub fn from_ymd(year: i32, month: u32, day: u32) -> (r: Option<Date>)
        ensures
            r.is_some() == days_of_civil(year, month, day).is_some(),
            r.is_some() == civil_date(year, month, day),
            r matches Some(date) ==> date.wf() && days_of_civil(year, month, day) == Some(
                date.days,
            ),
    {
        match days_from_civil(year, month, day) {
            Some(days) => Date::from_days(days),
            None => None,
        }
    }

    /// Year, month and day of this date.
    pub fn civil(&self) -> (r: (i32, u32, u32))
        requires
            self.wf(),
        ensures
            civil_of_days(self.days) == Some(r),
            civil_date(r.0, r.1, r.2),
            1 <= r.1 <= 12,
            1 <= r.2 <= 31,
            days_of_civil(r.0, r.1, r.2) == Some(self.days),
    {
        civil_from_days(self.days).unwrap()
    }

    /// The number of days from the Monday before to this date, 0 to 6. A
    /// date of the calendar has one.
    pub fn days_from_monday(&self) -> (r: Option<u32>)
        ensures
            r == weekday_of_days(self.days),
            r.is_some() == civil_of_days(self.days).is_some(),
            self.wf() ==> r.is_some(),
            r matches Some(w) ==> w < 7,
    {
        weekday_from_days(self.days)
    }

    /// Whether chrono has a date `offset` days after this one.
    pub open spec fn has_day(self, offset: int) -> bool {
        i32::MIN <= self.days + offset <= i32::MAX && civil_of_days(
            (self.days + offset) as i32,
        ).is_some()
    }

    /// The date `offset` days after this one (before it, where `offset` is
    /// negative), wherever chrono has a date of that day number.
    pub open spec fn moved(self, offset: int) -> Option<Date> {
        if self.has_day(offset) {
            Some(Date { days: (self.days + offset) as i32 })
        } else {
            None
        }
    }

    /// The date `offset` days after this one (before it, where `offset` is
    /// negative), wherever chrono has a date of that day number.
    pub fn plus_days(&self, offset: i32) -> (r: Option<Date>)
        ensures
            r == self.moved(offset as int),
            r.is_some() == self.has_day(offset as int),
            r matches Some(date) ==> date.wf(),
    {
        match self.days.checked_add(offset) {
            Some(days) => Date::from_days(days),
            None => None,
        }
    }
}

impl Time {
    /// A time of day: fewer minutes than a day has.
    pub open spec fn wf(self) -> bool {
        self.minutes < 1440
    }

    /// The time `hour`:`minute`, for an hour below 24 and a minute below 60.
    pub fn from_hm(hour: u32, minute: u32) -> (r: Option<Time>)
        ensures
            r.is_some() == (hour < 24 && minute < 60),
            r matches Some(time) ==> time.wf() && time.minutes == hour * 60 + minute,
    {
        if hour < 24 && minute < 60 {
            Some(Time { minutes: (hour * 60 + minute) as u16 })
        } else {
            None
        }
    }

    /// The hour, from 0 to 23.
    pub fn hour(&self) -> (r: u32)
        ensures
            r == self.minutes / 60,
    {
        (self.minutes / 60) as u32
    }

    /// The minute of the hour, from 0 to 59.
    pub fn minute(&self) -> (r: u32)
        ensures
            r == self.minutes % 60,
    {
        (self.minutes % 60) as u32
    }
}

/// Whether chrono has a date for the day of the stamp `stamp`.
pub open spec fn chrono_has(stamp: int) -> bool {
    i32::MIN <= stamp / 1440 <= i32::MAX && civil_of_days((stamp / 1440) as i32).is_some()
}

/// Whether `stamp` is the minute count of an instant of the calendar.
pub open spec fn calendar_stamp(stamp: int) -> bool {
    i32::MIN <= stamp / 1440 <= i32::MAX && calendar_day((stamp / 1440) as i32)
}

impl DateTime {
    /// An instant of the calendar.
    pub open spec fn wf(self) -> bool {
        self.date.wf() && self.time.wf()
    }

    /// The instant as one number: the minutes from the midnight that begins
    /// day 0, negative before it. Instants are ordered as their stamps are.
    pub open spec fn stamp(self) -> int {
        self.date.days * 1440 + self.time.minutes
    }

    /// The instant of a time of day on a date.
    pub fn new(date: Date, time: Time) -> (r: DateTime)
        ensures
            r.date == date,
            r.time == time,
    {
        DateTime { date, time }
    }

    /// The instant that a command speaks of: the time of day that was given,
    /// on the day of `now`; or `now` itself where none was given.
    pub fn at_time(now: DateTime, time: Option<Time>) -> (r: DateTime)
        ensures
            r == match time {
                Some(time) => DateTime { date: now.date, time },
                None => now,
            },
    {
        match time {
            Some(time) => DateTime { date: now.date, time },
            None => now,
        }
    }

    /// The stamp of the instant.
    pub fn to_stamp(&self) -> (r: i64)
        ensures
            r == self.stamp(),
    {
        self.date.days as i64 * MINUTES_PER_DAY + self.time.minutes as i64
    }

    /// The instant with the stamp `stamp`, wherever chrono has a date for
    /// its day.
    pub fn from_stamp(stamp: i64) -> (r: Option<DateTime>)
        ensures
            r.is_some() == chrono_has(stamp as int),
            r.is_some() == calendar_stamp(stamp as int),
            r matches Some(at) ==> at.wf() && at.stamp() == stamp,
    {
        let day: i64 = match stamp.checked_div_euclid(MINUTES_PER_DAY) {
            Some(day) => day,
            None => {
                return None;
            },
        };
        let minute: i64 = match stamp.checked_rem_euclid(MINUTES_PER_DAY) {
            Some(minute) => minute,
            None => {
                return None;
            },
        };
        if day < i32::MIN as i64 || day > i32::MAX as i64 {
            return None;
        }
        match Date::from_days(day as i32) {
            Some(date) => Some(DateTime { date, time: Time { minutes: minute as u16 } }),
            None => None,
        }
    }
}

/// Reads a date as it is given on the command line, in chrono's format
/// `FORMAT_DATE`: every date that chrono reads. Fails with chrono's message
/// where it reads none.
pub fn parse_date(date_string: &str) -> (r: Result<Date, String>)
    ensures
        r.is_ok() == date_of_text(date_string@, FORMAT_DATE@).is_some(),
        r matches Ok(date) ==> date.wf() && date_of_text(date_string@, FORMAT_DATE@) == Some(
            date.days,
        ),
{
    match date_from_text(date_string, FORMAT_DATE) {
        Ok(days) => Ok(Date::from_days(days).unwrap()),
        Err(e) => Err(parse_error_message(&e)),
    }
}

/// Reads a time of day as it is given on the command line, in chrono's format
/// `FORMAT_TIME`: every time that chrono reads. Fails with chrono's message
/// where it reads none.
pub fn parse_time(time_string: &str) -> (r: Result<Time, String>)
    ensures
        r.is_ok() == time_of_text(time_string@, FORMAT_TIME@).is_some(),
        r matches Ok(time) ==> time.wf() && time_of_text(time_string@, FORMAT_TIME@) == Some(
            ((time.minutes / 60) as u32, (time.minutes % 60) as u32),
        ),
{
    match time_from_text(time_string, FORMAT_TIME) {
        Ok(hm) => Ok(Time::from_hm(hm.0, hm.1).unwrap()),
        Err(e) => Err(parse_error_message(&e)),
    }
}

} // verus!
