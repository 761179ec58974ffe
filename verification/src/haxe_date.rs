//! Dates: instants in milliseconds since the start of 1970 (UTC), and their calendar fields.
//!
//! Calendar fields come from the `chrono` crate. Those in UTC are a function of the instant; those
//! in local time also depend on the machine's time zone.

use crate::floats;
use crate::haxe_string::HaxeString;
use crate::haxe_sys;
use crate::text;
use chrono::{Datelike, TimeZone, Timelike};
use vstd::prelude::*;

verus! {

// ---------------------------------------------------------------------------
// The calendar
// ---------------------------------------------------------------------------

/// First year for which there are dates.
pub const FIRST_YEAR: i32 = -262143;

/// Last year for which there are dates.
pub const LAST_YEAR: i32 = 262142;

/// Seconds of a day.
pub const DAY_SECONDS: i64 = 86400;

/// A date and a time of day. The nanoseconds reach two seconds in a leap second.
#[derive(Clone, Copy, PartialEq, Eq, Structural, Debug)]
pub struct Civil {
    pub year: i32,
    pub month: u32,
    pub day: u32,
    pub hour: u32,
    pub minute: u32,
    pub second: u32,
    pub nanos: u32,
}

/// Whether a year of the Gregorian calendar has 366 days.
pub open spec fn is_leap(year: int) -> bool {
    year % 4 == 0 && (year % 100 != 0 || year % 400 == 0)
}

/// Days of a month, counted from 1.
pub open spec fn month_days(year: int, month: int) -> int {
    if month == 2 {
        if is_leap(year) {
            29
        } else {
            28
        }
    } else if month == 4 || month == 6 || month == 9 || month == 11 {
        30
    } else {
        31
    }
}

/// Days of the year before a month.
pub open spec fn days_before_month(year: int, month: int) -> int
    decreases month,
{
    if month <= 1 {
        0
    } else {
        days_before_month(year, month - 1) + month_days(year, month - 1)
    }
}

/// Days from the first day of year 1 to the first day of a year.
pub open spec fn days_before_year(year: int) -> int {
    365 * (year - 1) + (year - 1) / 4 - (year - 1) / 100 + (year - 1) / 400
}

/// Days from 1970-01-01 to a date.
pub open spec fn day_number(year: int, month: int, day: int) -> int {
    days_before_year(year) + days_before_month(year, month) + day - 1 - 719162
}

/// Whether a date is one of the calendar.
pub open spec fn on_calendar(year: int, month: int, day: int) -> bool {
    1 <= month <= 12 && 1 <= day <= month_days(year, month)
}

/// Whether a date is one of the calendar, in a year for which there are dates.
pub open spec fn date_exists(year: int, month: int, day: int) -> bool {
    FIRST_YEAR <= year <= LAST_YEAR && on_calendar(year, month, day)
}

/// Whether there is a time of day.
pub open spec fn time_exists(hour: int, minute: int, second: int) -> bool {
    0 <= hour < 24 && 0 <= minute < 60 && 0 <= second < 60
}

impl Civil {
    /// Whether there is such a date and time.
    pub open spec fn is_valid(&self) -> bool {
        &&& date_exists(self.year as int, self.month as int, self.day as int)
        &&& time_exists(self.hour as int, self.minute as int, self.second as int)
        &&& self.nanos < 1_000_000_000 || (self.nanos < 2_000_000_000 && self.second == 59)
    }

    /// Seconds from the start of 1970 on a clock that shows this date and time.
    pub open spec fn seconds(&self) -> int {
        day_number(self.year as int, self.month as int, self.day as int) * DAY_SECONDS + self.hour
            * 3600 + self.minute * 60 + self.second
    }

    /// The same in milliseconds.
    pub open spec fn millis(&self) -> int {
        self.seconds() * 1000 + self.nanos as int / 1_000_000
    }

    /// Whether a clock shows this date and time after so many seconds since the start of 1970.
    pub open spec fn shows(&self, seconds: int) -> bool {
        &&& on_calendar(self.year as int, self.month as int, self.day as int)
        &&& time_exists(self.hour as int, self.minute as int, self.second as int)
        &&& self.seconds() == seconds
    }
}

/// Day of the week after so many seconds since the start of 1970, a Thursday, Sundays being 0.
pub open spec fn weekday_of(seconds: int) -> int {
    (seconds / (DAY_SECONDS as int) + 4) % 7
}

/// Whether a number of seconds since the start of 1970 falls on a day for which there is a date.
pub open spec fn in_calendar(seconds: int) -> bool {
    day_number(FIRST_YEAR as int, 1, 1) <= seconds / (DAY_SECONDS as int) <= day_number(
        LAST_YEAR as int,
        12,
        31,
    )
}

/// Whether so many nanoseconds can be added to a number of seconds.
pub open spec fn nanos_fit(seconds: int, nanos: int) -> bool {
    nanos < 1_000_000_000 || (nanos < 2_000_000_000 && seconds % 60 == 59)
}

/// A number with at least so many digits.
pub open spec fn padded(n: nat, width: nat) -> Seq<u8> {
    let digits = text::dec_nat(n);
    if digits.len() < width {
        Seq::new((width - digits.len()) as nat, |i: int| 48u8) + digits
    } else {
        digits
    }
}

/// A year with at least four digits, and with a sign unless it has four and is not negative.
pub open spec fn year_text(year: int) -> Seq<u8> {
    if 0 <= year <= 9999 {
        padded(year as nat, 4)
    } else if year < 0 {
        seq![45u8] + padded((-year) as nat, 4)
    } else {
        seq![43u8] + padded(year as nat, 4)
    }
}

/// A date and time as `YYYY-MM-DD HH:MM:SS`.
pub open spec fn date_text(c: Civil) -> Seq<u8> {
    year_text(c.year as int) + seq![45u8] + padded(c.month as nat, 2) + seq![45u8] + padded(
        c.day as nat,
        2,
    ) + seq![32u8] + padded(c.hour as nat, 2) + seq![58u8] + padded(c.minute as nat, 2) + seq![58u8]
        + padded(c.second as nat, 2)
}

// ---------------------------------------------------------------------------
// The outside crate
// ---------------------------------------------------------------------------

/// What a clock shows at an instant.
pub struct Moment {
    /// Seconds by which the clock is ahead of UTC.
    pub offset: i32,
    pub civil: Civil,
    /// Day of the week, Sundays being 0.
    pub weekday: u32,
    /// The date and time as text.
    pub text: Vec<u8>,
}

impl Moment {
    /// Whether a clock with the offset shows this at an instant.
    pub open spec fn shown_at(&self, seconds: int) -> bool {
        &&& -DAY_SECONDS < self.offset < DAY_SECONDS
        &&& self.civil.shows(seconds + self.offset)
        &&& self.weekday == weekday_of(seconds + self.offset)
        &&& self.text@ == date_text(self.civil)
    }
}

/// Calls `chrono::NaiveDate::from_ymd_opt`: whether there is such a date.
#[verifier::external_body]
fn is_date(year: i32, month: u32, day: u32) -> (r: bool)
    ensures
        r == date_exists(year as int, month as int, day as int),
{
    chrono::NaiveDate::from_ymd_opt(year, month, day).is_some()
}

/// Calls `chrono::NaiveTime::from_hms_opt`: whether there is such a time of day.
#[verifier::external_body]
fn is_time(hour: u32, minute: u32, second: u32) -> (r: bool)
    ensures
        r == time_exists(hour as int, minute as int, second as int),
{
    chrono::NaiveTime::from_hms_opt(hour, minute, second).is_some()
}

/// Calls `chrono::NaiveDateTime::and_utc` and `timestamp_millis` on a date and time: the instant
/// at which a clock in UTC shows it.
#[verifier::external_body]
fn utc_millis(c: Civil) -> (ms: i64)
    requires
        c.is_valid(),
    ensures
        ms == c.millis(),
{
    let date = chrono::NaiveDate::from_ymd_opt(c.year, c.month, c.day).unwrap();
    let time = chrono::NaiveTime::from_hms_nano_opt(c.hour, c.minute, c.second, c.nanos).unwrap();
    date.and_time(time).and_utc().timestamp_millis()
}

/// Calls `chrono::Local.from_local_datetime`, `single` and `timestamp_millis`: the instant at which
/// a clock in local time shows a date and time, if there is exactly one. Local time is less than a
/// day away from UTC, by whole seconds; which offset it has, and whether the date and time occur
/// in it once, depends on the machine's time zone and is not stated.
#[verifier::external_body]
fn local_millis(c: Civil) -> (ms: Option<i64>)
    requires
        c.is_valid(),
    ensures
        ms matches Some(m) ==> exists|offset: int|
            -DAY_SECONDS < offset < DAY_SECONDS && m == #[trigger] ahead(c.millis(), offset),
{
    let date = chrono::NaiveDate::from_ymd_opt(c.year, c.month, c.day).unwrap();
    let time = chrono::NaiveTime::from_hms_nano_opt(c.hour, c.minute, c.second, c.nanos).unwrap();
    chrono::Local.from_local_datetime(&date.and_time(time)).single().map(|l| l.timestamp_millis())
}

/// The instant at which a clock that is so many seconds ahead of UTC shows what UTC shows at
/// another.
pub open spec fn ahead(millis: int, offset: int) -> int {
    millis - offset * 1000
}

/// Calls `chrono::Local::now` and `timestamp_millis`. The result is the current time; nothing is
/// stated of it.
#[verifier::external_body]
fn now_millis() -> (ms: i64) {
    chrono::Local::now().timestamp_millis()
}

/// Calls `chrono::DateTime::from_timestamp` and the getters of its result: what a clock in UTC
/// shows so many seconds and nanoseconds after the start of 1970; none where the nanoseconds are
/// too many or there is no such date.
#[verifier::external_body]
fn utc_moment(seconds: i64, nanos: u32) -> (m: Option<(Civil, u32)>)
    ensures
        (m is Some) == (in_calendar(seconds as int) && nanos_fit(seconds as int, nanos as int)),
        m matches Some(r) ==> r.0.shows(seconds as int) && r.1 == weekday_of(seconds as int),
{
    let t = chrono::DateTime::from_timestamp(seconds, nanos)?;
    let civil = Civil {
        year: t.year(),
        month: t.month(),
        day: t.day(),
        hour: t.hour(),
        minute: t.minute(),
        second: t.second(),
        nanos: t.nanosecond(),
    };
    Some((civil, t.weekday().num_days_from_sunday()))
}

/// Calls `chrono::DateTime::from_timestamp`, `with_timezone(&chrono::Local)`, the getters of its
/// result and `format`: what a clock in local time shows; none as for UTC. A leap second, whose
/// text would show a second 60, is left out. Local time is less than a day away from UTC; which
/// offset it has depends on the machine's time zone and is not stated.
#[verifier::external_body]
fn local_moment(seconds: i64, nanos: u32, pattern: &str) -> (m: Option<Moment>)
    requires
        pattern@ == "%Y-%m-%d %H:%M:%S"@,
        nanos < 1_000_000_000 || nanos >= 2_000_000_000,
    ensures
        (m is Some) == (in_calendar(seconds as int) && nanos_fit(seconds as int, nanos as int)),
        m matches Some(r) ==> r.shown_at(seconds as int),
{
    let t = chrono::DateTime::from_timestamp(seconds, nanos)?.with_timezone(&chrono::Local);
    let (year, month, day) = (t.year(), t.month(), t.day());
    let (hour, minute, second) = (t.hour(), t.minute(), t.second());
    Some(
        Moment {
            offset: t.offset().local_minus_utc(),
            civil: Civil { year, month, day, hour, minute, second, nanos: t.nanosecond() },
            weekday: t.weekday().num_days_from_sunday(),
            text: t.format(pattern).to_string().into_bytes(),
        },
    )
}

/// The date and time that `chrono::NaiveDateTime::parse_from_str` reads by a pattern, as year,
/// month, day, hour, minute, second and nanoseconds.
pub uninterp spec fn parsed_date_time(
    s: Seq<char>,
    pattern: Seq<char>,
) -> Option<(i32, u32, u32, u32, u32, u32, u32)>;

/// Calls `chrono::NaiveDateTime::parse_from_str`: what it reads is a date and time.
#[verifier::external_body]
fn parse_date_time(s: &str, pattern: &str) -> (r: Option<(i32, u32, u32, u32, u32, u32, u32)>)
    ensures
        r == parsed_date_time(s@, pattern@),
        r matches Some(c) ==> civil_of(c).is_valid(),
{
    let t = chrono::NaiveDateTime::parse_from_str(s, pattern).ok()?;
    let (year, month, day) = (t.year(), t.month(), t.day());
    Some((year, month, day, t.hour(), t.minute(), t.second(), t.nanosecond()))
}

/// The date that `chrono::NaiveDate::parse_from_str` reads by a pattern, as year, month and day.
pub uninterp spec fn parsed_date(s: Seq<char>, pattern: Seq<char>) -> Option<(i32, u32, u32)>;

/// Calls `chrono::NaiveDate::parse_from_str`: what it reads is a date.
#[verifier::external_body]
fn parse_date(s: &str, pattern: &str) -> (r: Option<(i32, u32, u32)>)
    ensures
        r == parsed_date(s@, pattern@),
        r matches Some(d) ==> date_exists(d.0 as int, d.1 as int, d.2 as int),
{
    let d = chrono::NaiveDate::parse_from_str(s, pattern).ok()?;
    Some((d.year(), d.month(), d.day()))
}

/// The time of day that `chrono::NaiveTime::parse_from_str` reads by a pattern, as hour, minute,
/// second and nanoseconds.
pub uninterp spec fn parsed_time(s: Seq<char>, pattern: Seq<char>) -> Option<(u32, u32, u32, u32)>;

/// Calls `chrono::NaiveTime::parse_from_str`: what it reads is a time of day.
#[verifier::external_body]
fn parse_time(s: &str, pattern: &str) -> (r: Option<(u32, u32, u32, u32)>)
    ensures
        r == parsed_time(s@, pattern@),
        r matches Some(t) ==> civil_of((1970, 1, 1, t.0, t.1, t.2, t.3)).is_valid(),
{
    let t = chrono::NaiveTime::parse_from_str(s, pattern).ok()?;
    Some((t.hour(), t.minute(), t.second(), t.nanosecond()))
}

/// Date and time of its parts.
pub open spec fn civil_of(p: (i32, u32, u32, u32, u32, u32, u32)) -> Civil {
    Civil {
        year: p.0,
        month: p.1,
        day: p.2,
        hour: p.3,
        minute: p.4,
        second: p.5,
        nanos: p.6,
    }
}

// ---------------------------------------------------------------------------
// Dates
// ---------------------------------------------------------------------------

/// A date: the bits of the number of milliseconds since the start of 1970.
#[derive(Clone, Copy, PartialEq, Eq, Structural, Debug)]
pub struct HaxeDate {
    pub timestamp_ms: u64,
}

impl HaxeDate {
    /// Whole milliseconds of the date.
    pub open spec fn millis(&self) -> int {
        floats::clamped(floats::truncated(self.timestamp_ms), i64::MIN as int, i64::MAX as int)
    }
}

/// The date of an instant.
pub open spec fn date_at(millis: int) -> HaxeDate {
    HaxeDate { timestamp_ms: floats::int_bits(millis) as u64 }
}

fn date_of_millis(ms: i64) -> (d: HaxeDate)
    ensures
        d == date_at(ms as int),
{
    HaxeDate { timestamp_ms: floats::from_int(ms) }
}

/// The date of an instant, or of the current one where there is none.
pub fn date_or_now(ms: Option<i64>, now: i64) -> (d: HaxeDate)
    ensures
        d == date_at(
            match ms {
                Some(m) => m as int,
                None => now as int,
            },
        ),
{
    match ms {
        Some(m) => date_of_millis(m),
        None => date_of_millis(now),
    }
}

/// Bits of a signed number as an unsigned one.
fn as_unsigned(x: i32) -> (u: u32)
    ensures
        x >= 0 ==> u == x,
        x < 0 ==> u >= 0x8000_0000,
{
    assert(x < 0 ==> (x as u32) >= 0x8000_0000u32) by (bit_vector);
    #[verifier::truncate]
    (x as u32)
}

/// The date and time that are meant by components, the month counted from 0: 1970-01-01 where
/// there is no such date, and midnight where there is no such time.
pub open spec fn meant(year: int, month: int, day: int, hour: int, minute: int, second: int) -> (
    int,
    int,
    int,
    int,
    int,
    int,
) {
    let (y, m, d) = if date_exists(year, month + 1, day) {
        (year, month + 1, day)
    } else {
        (1970, 1, 1)
    };
    let (h, i, s) = if time_exists(hour, minute, second) {
        (hour, minute, second)
    } else {
        (0, 0, 0)
    };
    (y, m, d, h, i, s)
}

/// The date and time that are meant by components, the month counted from 0.
pub fn date_components(
    year: i32,
    month: i32,
    day: i32,
    hour: i32,
    minute: i32,
    second: i32,
) -> (c: Civil)
    requires
        month < i32::MAX,
    ensures
        (
            c.year as int,
            c.month as int,
            c.day as int,
            c.hour as int,
            c.minute as int,
            c.second as int,
        ) == meant(
            year as int,
            month as int,
            day as int,
            hour as int,
            minute as int,
            second as int,
        ),
        c.nanos == 0,
        c.is_valid(),
{
    let m: u32 = as_unsigned(month + 1);
    let d: u32 = as_unsigned(day);
    let h: u32 = as_unsigned(hour);
    let i: u32 = as_unsigned(minute);
    let s: u32 = as_unsigned(second);
    let (y, m, d): (i32, u32, u32) = if is_date(year, m, d) {
        (year, m, d)
    } else {
        (1970, 1, 1)
    };
    let (h, i, s): (u32, u32, u32) = if is_time(h, i, s) {
        (h, i, s)
    } else {
        (0, 0, 0)
    };
    Civil { year: y, month: m, day: d, hour: h, minute: i, second: s, nanos: 0 }
}

/// The date with components in local time, the month counted from 0, or where local time does not
/// show them exactly once the current date.
pub fn haxe_date_new(
    year: i32,
    month: i32,
    day: i32,
    hour: i32,
    minute: i32,
    second: i32,
) -> (d: HaxeDate)
    requires
        month < i32::MAX,
    ensures
        exists|ms: i64| d == #[trigger] date_at(ms as int),
{
    let c: Civil = date_components(year, month, day, hour, minute, second);
    date_or_now(local_millis(c), now_millis())
}

/// The current date.
pub fn haxe_date_now() -> (d: HaxeDate)
    ensures
        exists|ms: i64| d == #[trigger] date_at(ms as int),
{
    date_of_millis(now_millis())
}

/// The date of a number of milliseconds.
pub fn haxe_date_from_time(t: u64) -> (d: HaxeDate)
    ensures
        d.timestamp_ms == t,
{
    HaxeDate { timestamp_ms: t }
}

/// What a text says of a date.
#[derive(Clone, Copy, PartialEq, Eq, Structural, Debug)]
pub enum DateReading {
    /// A date and time in local time.
    Local(Civil),
    /// A time after the start of 1970 in UTC.
    Utc(Civil),
    Unreadable,
}

/// What is meant by the results of reading a text as a date and time, as a date and as a time: the
/// first that succeeds, a date being its midnight.
pub open spec fn preferred(
    date_time: Option<(i32, u32, u32, u32, u32, u32, u32)>,
    date: Option<(i32, u32, u32)>,
    time: Option<(u32, u32, u32, u32)>,
) -> DateReading {
    match (date_time, date, time) {
        (Some(p), _, _) => DateReading::Local(civil_of(p)),
        (None, Some(d), _) => DateReading::Local(civil_of((d.0, d.1, d.2, 0, 0, 0, 0))),
        (None, None, Some(t)) => DateReading::Utc(civil_of((1970, 1, 1, t.0, t.1, t.2, t.3))),
        (None, None, None) => DateReading::Unreadable,
    }
}

/// What is meant by the results of reading a text.
pub fn choose_reading(
    date_time: Option<(i32, u32, u32, u32, u32, u32, u32)>,
    date: Option<(i32, u32, u32)>,
    time: Option<(u32, u32, u32, u32)>,
) -> (r: DateReading)
    ensures
        r == preferred(date_time, date, time),
{
    if let Some((year, month, day, hour, minute, second, nanos)) = date_time {
        return DateReading::Local(Civil { year, month, day, hour, minute, second, nanos });
    }
    if let Some((year, month, day)) = date {
        return DateReading::Local(
            Civil { year, month, day, hour: 0, minute: 0, second: 0, nanos: 0 },
        );
    }
    match time {
        Some((hour, minute, second, nanos)) => DateReading::Utc(
            Civil { year: 1970, month: 1, day: 1, hour, minute, second, nanos },
        ),
        None => DateReading::Unreadable,
    }
}

/// What a text says of a date, as `YYYY-MM-DD hh:mm:ss`, `YYYY-MM-DD` or `hh:mm:ss`.
pub open spec fn reading_of(s: Seq<char>) -> DateReading {
    preferred(
        parsed_date_time(s, "%Y-%m-%d %H:%M:%S"@),
        parsed_date(s, "%Y-%m-%d"@),
        parsed_time(s, "%H:%M:%S"@),
    )
}

/// Reads a date.
pub fn read_date(s: &str) -> (r: DateReading)
    ensures
        r == reading_of(s@),
        match r {
            DateReading::Local(c) => c.is_valid(),
            DateReading::Utc(c) => c.is_valid(),
            DateReading::Unreadable => true,
        },
{
    choose_reading(
        parse_date_time(s, "%Y-%m-%d %H:%M:%S"),
        parse_date(s, "%Y-%m-%d"),
        parse_time(s, "%H:%M:%S"),
    )
}

/// The date that a text gives; the current date for null, for bytes that are no text, and for what
/// is not a date.
pub fn haxe_date_from_string(s: Option<&HaxeString>) -> (d: HaxeDate)
    ensures
        exists|ms: i64| d == #[trigger] date_at(ms as int),
        (s is Some && vstd::utf8::valid_utf8(crate::haxe_string::opt_view(s))) ==> match reading_of(
            vstd::utf8::decode_utf8(crate::haxe_string::opt_view(s)),
        ) {
            DateReading::Utc(c) => d == date_at(c.millis()),
            _ => true,
        },
{
    match haxe_sys::haxe_string_to_rust(s) {
        None => haxe_date_now(),
        Some(t) => match read_date(t.as_str()) {
            DateReading::Local(c) => date_or_now(local_millis(c), now_millis()),
            DateReading::Utc(c) => date_of_millis(utc_millis(c)),
            DateReading::Unreadable => haxe_date_now(),
        },
    }
}

/// Milliseconds of a date, as bits; 0 for null.
pub fn haxe_date_get_time(date: Option<&HaxeDate>) -> (t: u64)
    ensures
        t == match date {
            Some(d) => d.timestamp_ms,
            None => 0,
        },
{
    match date {
        Some(d) => d.timestamp_ms,
        None => 0,
    }
}

// ---------------------------------------------------------------------------
// Fields of a date
// ---------------------------------------------------------------------------

/// Seconds of an instant at which fields of a date are read: none for null, for an instant before
/// 1970 that is not a whole second, and for one without a date.
pub open spec fn instant(date: Option<&HaxeDate>) -> Option<int> {
    match date {
        None => None,
        Some(d) => {
            let seconds = if d.millis() >= 0 {
                d.millis() / 1000
            } else {
                -((-d.millis()) / 1000)
            };
            if (d.millis() < 0 && d.millis() % 1000 != 0) || !in_calendar(seconds) {
                None
            } else {
                Some(seconds)
            }
        },
    }
}

/// Seconds of a number of milliseconds and the nanoseconds that remain; of those the low 32 bits
/// where they are negative.
fn split_millis(ms: i64) -> (r: (i64, u32))
    ensures
        r.0 == if ms >= 0 {
            ms as int / 1000
        } else {
            -((-ms) / 1000)
        },
        if ms >= 0 || ms as int % 1000 == 0 {
            r.1 == (ms as int % 1000) * 1_000_000
        } else {
            r.1 >= 2_000_000_000
        },
{
    if ms >= 0 {
        return (ms / 1000, (ms % 1000) as u32 * 1_000_000);
    }
    let mag: u64 = (-(ms + 1)) as u64 + 1;
    let rest: u64 = mag % 1000;
    let nanos: u32 = if rest == 0 {
        0
    } else {
        (0x1_0000_0000 - rest * 1_000_000) as u32
    };
    (-((mag / 1000) as i64), nanos)
}

/// What a clock in UTC shows at the instant of a date, and the day of the week.
pub fn get_utc_datetime(date: Option<&HaxeDate>) -> (m: Option<(Civil, u32)>)
    ensures
        m is Some <==> instant(date) is Some,
        m matches Some(r) ==> r.0.shows(instant(date)->Some_0) && r.1 == weekday_of(
            instant(date)->Some_0,
        ),
{
    match date {
        None => None,
        Some(d) => {
            let (seconds, nanos): (i64, u32) = split_millis(floats::to_int(d.timestamp_ms));
            utc_moment(seconds, nanos)
        },
    }
}

/// What the local clock shows at the instant of a date; which offset it has then is the
/// machine's to say.
pub fn get_local_datetime(date: Option<&HaxeDate>) -> (m: Option<Moment>)
    ensures
        m is Some <==> instant(date) is Some,
        m matches Some(r) ==> r.shown_at(instant(date)->Some_0),
{
    match date {
        None => None,
        Some(d) => {
            let (seconds, nanos): (i64, u32) = split_millis(floats::to_int(d.timestamp_ms));
            local_moment(seconds, nanos, "%Y-%m-%d %H:%M:%S")
        },
    }
}

/// The hour, 0 to 23, that a clock shows.
pub fn hours_of(m: &Moment) -> (r: i32)
    requires
        m.civil.hour <= 23,
    ensures
        r == m.civil.hour,
{
    m.civil.hour as i32
}

/// The minute, 0 to 59, that a clock shows.
pub fn minutes_of(m: &Moment) -> (r: i32)
    requires
        m.civil.minute <= 59,
    ensures
        r == m.civil.minute,
{
    m.civil.minute as i32
}

/// The second, 0 to 59, that a clock shows.
pub fn seconds_of(m: &Moment) -> (r: i32)
    requires
        m.civil.second <= 59,
    ensures
        r == m.civil.second,
{
    m.civil.second as i32
}

/// The year that a clock shows.
pub fn full_year_of(m: &Moment) -> (r: i32)
    ensures
        r == m.civil.year,
{
    m.civil.year
}

/// The month, 0 to 11, that a clock shows.
pub fn month_of(m: &Moment) -> (r: i32)
    requires
        1 <= m.civil.month <= 12,
    ensures
        r == m.civil.month - 1,
{
    (m.civil.month - 1) as i32
}

/// The day of the month, 1 to 31, that a clock shows.
pub fn date_of(m: &Moment) -> (r: i32)
    requires
        1 <= m.civil.day <= 31,
    ensures
        r == m.civil.day,
{
    m.civil.day as i32
}

/// The day of the week, 0 to 6 from Sunday, that a clock shows.
pub fn day_of(m: &Moment) -> (r: i32)
    requires
        m.weekday <= 6,
    ensures
        r == m.weekday,
{
    m.weekday as i32
}

/// Whole minutes by which a clock is ahead of UTC.
pub fn timezone_offset_of(m: &Moment) -> (r: i32)
    requires
        -DAY_SECONDS < m.offset < DAY_SECONDS,
    ensures
        r == offset_minutes(m.offset as int),
{
    if m.offset >= 0 {
        m.offset / 60
    } else {
        -((-m.offset) / 60)
    }
}

/// The text that a clock shows.
pub fn text_of(m: &Moment) -> (s: HaxeString)
    ensures
        s.exact(m.text@),
{
    HaxeString::from_vec(text::copy_all(m.text.as_slice()))
}

/// Whether a value is a field of a date in some local time, or the value for no date.
pub open spec fn local_field(
    date: Option<&HaxeDate>,
    value: int,
    field: spec_fn(Moment) -> int,
    none: int,
) -> bool {
    match instant(date) {
        None => value == none,
        Some(seconds) => exists|m: Moment| #[trigger] m.shown_at(seconds) && value == field(m),
    }
}

/// Whether a value is a field of a date in UTC, or the value for no date.
pub open spec fn utc_field(
    date: Option<&HaxeDate>,
    value: int,
    field: spec_fn(Civil) -> int,
    none: int,
) -> bool {
    match instant(date) {
        None => value == none,
        Some(seconds) => exists|c: Civil| #[trigger] c.shows(seconds) && value == field(c),
    }
}

/// The hour, 0 to 23, in local time.
pub fn haxe_date_get_hours(date: Option<&HaxeDate>) -> (r: i32)
    ensures
        local_field(date, r as int, |m: Moment| m.civil.hour as int, 0),
{
    match get_local_datetime(date) {
        Some(m) => hours_of(&m),
        None => 0,
    }
}

/// The minute, 0 to 59, in local time.
pub fn haxe_date_get_minutes(date: Option<&HaxeDate>) -> (r: i32)
    ensures
        local_field(date, r as int, |m: Moment| m.civil.minute as int, 0),
{
    match get_local_datetime(date) {
        Some(m) => minutes_of(&m),
        None => 0,
    }
}

/// The second, 0 to 59, in local time.
pub fn haxe_date_get_seconds(date: Option<&HaxeDate>) -> (r: i32)
    ensures
        local_field(date, r as int, |m: Moment| m.civil.second as int, 0),
{
    match get_local_datetime(date) {
        Some(m) => seconds_of(&m),
        None => 0,
    }
}

/// The year, in local time.
pub fn haxe_date_get_full_year(date: Option<&HaxeDate>) -> (r: i32)
    ensures
        local_field(date, r as int, |m: Moment| m.civil.year as int, 1970),
{
    match get_local_datetime(date) {
        Some(m) => full_year_of(&m),
        None => 1970,
    }
}

/// The month, 0 to 11, in local time.
pub fn haxe_date_get_month(date: Option<&HaxeDate>) -> (r: i32)
    ensures
        local_field(date, r as int, |m: Moment| m.civil.month - 1, 0),
{
    match get_local_datetime(date) {
        Some(m) => month_of(&m),
        None => 0,
    }
}

/// The day of the month, 1 to 31, in local time.
pub fn haxe_date_get_date(date: Option<&HaxeDate>) -> (r: i32)
    ensures
        local_field(date, r as int, |m: Moment| m.civil.day as int, 1),
{
    match get_local_datetime(date) {
        Some(m) => date_of(&m),
        None => 1,
    }
}

/// The day of the week, 0 to 6 from Sunday, in local time.
pub fn haxe_date_get_day(date: Option<&HaxeDate>) -> (r: i32)
    ensures
        local_field(date, r as int, |m: Moment| m.weekday as int, 0),
{
    match get_local_datetime(date) {
        Some(m) => day_of(&m),
        None => 0,
    }
}

/// The hour, 0 to 23, in UTC.
pub fn haxe_date_get_utc_hours(date: Option<&HaxeDate>) -> (r: i32)
    ensures
        utc_field(date, r as int, |c: Civil| c.hour as int, 0),
{
    match get_utc_datetime(date) {
        Some((c, _weekday)) => c.hour as i32,
        None => 0,
    }
}

/// The minute, 0 to 59, in UTC.
pub fn haxe_date_get_utc_minutes(date: Option<&HaxeDate>) -> (r: i32)
    ensures
        utc_field(date, r as int, |c: Civil| c.minute as int, 0),
{
    match get_utc_datetime(date) {
        Some((c, _weekday)) => c.minute as i32,
        None => 0,
    }
}

/// The second, 0 to 59, in UTC.
pub fn haxe_date_get_utc_seconds(date: Option<&HaxeDate>) -> (r: i32)
    ensures
        utc_field(date, r as int, |c: Civil| c.second as int, 0),
{
    match get_utc_datetime(date) {
        Some((c, _weekday)) => c.second as i32,
        None => 0,
    }
}

/// The year, in UTC.
pub fn haxe_date_get_utc_full_year(date: Option<&HaxeDate>) -> (r: i32)
    ensures
        utc_field(date, r as int, |c: Civil| c.year as int, 1970),
{
    match get_utc_datetime(date) {
        Some((c, _weekday)) => c.year,
        None => 1970,
    }
}

/// The month, 0 to 11, in UTC.
pub fn haxe_date_get_utc_month(date: Option<&HaxeDate>) -> (r: i32)
    ensures
        utc_field(date, r as int, |c: Civil| c.month - 1, 0),
{
    match get_utc_datetime(date) {
        Some((c, _weekday)) => (c.month - 1) as i32,
        None => 0,
    }
}

/// The day of the month, 1 to 31, in UTC.
pub fn haxe_date_get_utc_date(date: Option<&HaxeDate>) -> (r: i32)
    ensures
        utc_field(date, r as int, |c: Civil| c.day as int, 1),
{
    match get_utc_datetime(date) {
        Some((c, _weekday)) => c.day as i32,
        None => 1,
    }
}

/// The day of the week, 0 to 6 from Sunday, in UTC.
pub fn haxe_date_get_utc_day(date: Option<&HaxeDate>) -> (r: i32)
    ensures
        r == match instant(date) {
            Some(seconds) => weekday_of(seconds),
            None => 0,
        },
{
    match get_utc_datetime(date) {
        Some((_c, weekday)) => weekday as i32,
        None => 0,
    }
}

/// Whole minutes of an offset.
pub open spec fn offset_minutes(offset: int) -> int {
    if offset >= 0 {
        offset / 60
    } else {
        -((-offset) / 60)
    }
}

/// Whole minutes by which local time is ahead of UTC.
pub fn haxe_date_get_timezone_offset(date: Option<&HaxeDate>) -> (r: i32)
    ensures
        local_field(date, r as int, |m: Moment| offset_minutes(m.offset as int), 0),
{
    match get_local_datetime(date) {
        Some(m) => timezone_offset_of(&m),
        None => 0,
    }
}

/// The date in local time as `YYYY-MM-DD HH:MM:SS`.
pub fn haxe_date_to_string(date: Option<&HaxeDate>) -> (s: HaxeString)
    ensures
        match instant(date) {
            None => s.exact(text::lit("1970-01-01 00:00:00")),
            Some(seconds) => exists|m: Moment|
                #[trigger] m.shown_at(seconds) && s.exact(date_text(m.civil)),
        },
{
    match get_local_datetime(date) {
        Some(m) => text_of(&m),
        None => HaxeString::from_vec(text::copy_all("1970-01-01 00:00:00".as_bytes())),
    }
}

// ---------------------------------------------------------------------------
// Laws
// ---------------------------------------------------------------------------

/// Days of a year.
pub open spec fn year_days(year: int) -> int {
    if is_leap(year) {
        366
    } else {
        365
    }
}

proof fn lemma_year_step(year: int)
    ensures
        days_before_year(year + 1) == days_before_year(year) + year_days(year),
{
}

proof fn lemma_years_in_order(a: int, b: int)
    requires
        a < b,
    ensures
        days_before_year(a) + year_days(a) <= days_before_year(b),
    decreases b - a,
{
    lemma_year_step(a);
    if a + 1 < b {
        lemma_years_in_order(a + 1, b);
    }
}

proof fn lemma_month_step(year: int, a: int, b: int)
    requires
        1 <= a < b,
    ensures
        days_before_month(year, a) + month_days(year, a) <= days_before_month(year, b),
    decreases b - a,
{
    if a + 1 < b {
        lemma_month_step(year, a, b - 1);
    }
}

proof fn lemma_day_of_year(year: int, month: int, day: int)
    requires
        on_calendar(year, month, day),
    ensures
        0 <= days_before_month(year, month) + day - 1 < year_days(year),
{
    reveal_with_fuel(days_before_month, 13);
}

proof fn lemma_days_in_order(y1: int, m1: int, d1: int, y2: int, m2: int, d2: int)
    requires
        on_calendar(y1, m1, d1),
        on_calendar(y2, m2, d2),
        day_number(y1, m1, d1) == day_number(y2, m2, d2),
    ensures
        y1 == y2,
        m1 == m2,
        d1 == d2,
{
    lemma_day_of_year(y1, m1, d1);
    lemma_day_of_year(y2, m2, d2);
    if y1 < y2 {
        lemma_years_in_order(y1, y2);
    } else if y2 < y1 {
        lemma_years_in_order(y2, y1);
    }
    if m1 < m2 {
        lemma_month_step(y1, m1, m2);
    } else if m2 < m1 {
        lemma_month_step(y1, m2, m1);
    }
}

/// At an instant a clock shows one date and time only.
pub proof fn law_one_date_at_a_time(a: Civil, b: Civil, seconds: int)
    requires
        a.shows(seconds),
        b.shows(seconds),
    ensures
        a.year == b.year,
        a.month == b.month,
        a.day == b.day,
        a.hour == b.hour,
        a.minute == b.minute,
        a.second == b.second,
{
    let na = day_number(a.year as int, a.month as int, a.day as int);
    let nb = day_number(b.year as int, b.month as int, b.day as int);
    assert(na == nb);
    lemma_days_in_order(
        a.year as int,
        a.month as int,
        a.day as int,
        b.year as int,
        b.month as int,
        b.day as int,
    );
}

proof fn lemma_day_range(year: int, month: int, day: int)
    requires
        date_exists(year, month, day),
    ensures
        day_number(FIRST_YEAR as int, 1, 1) <= day_number(year, month, day) <= day_number(
            LAST_YEAR as int,
            12,
            31,
        ),
{
    lemma_day_of_year(year, month, day);
    lemma_day_of_year(LAST_YEAR as int, 12, 31);
    reveal_with_fuel(days_before_month, 13);
    if year > FIRST_YEAR {
        lemma_years_in_order(FIRST_YEAR as int, year);
    }
    if year < LAST_YEAR {
        lemma_years_in_order(year, LAST_YEAR as int);
    }
}

/// The calendar reaches less than a hundred million days to either side of 1970.
proof fn lemma_calendar_ends()
    ensures
        -100_000_000 < day_number(FIRST_YEAR as int, 1, 1),
        day_number(LAST_YEAR as int, 12, 31) < 100_000_000,
{
    reveal_with_fuel(days_before_month, 13);
}

/// A whole second of the calendar is read back from the date of its instant.
proof fn lemma_instant_of_second(seconds: int)
    requires
        in_calendar(seconds),
    ensures
        instant(Some(&date_at(seconds * 1000))) == Some(seconds),
{
    lemma_calendar_ends();
    let day = seconds / (DAY_SECONDS as int);
    assert(day * DAY_SECONDS <= seconds < day * DAY_SECONDS + DAY_SECONDS);
    floats::law_int_round_trip(seconds * 1000);
    assert(date_at(seconds * 1000).millis() == seconds * 1000);
}

/// A date that was made of a date and time in UTC is read at the instant at which UTC shows that
/// date and time, so its fields in UTC are the ones that it was made of.
pub proof fn law_utc_round_trip(c: Civil)
    requires
        c.is_valid(),
        c.nanos == 0,
    ensures
        instant(Some(&date_at(c.millis()))) == Some(c.seconds()),
        c.shows(c.seconds()),
{
    let n = day_number(c.year as int, c.month as int, c.day as int);
    lemma_day_range(c.year as int, c.month as int, c.day as int);
    assert(c.seconds() / (DAY_SECONDS as int) == n);
    lemma_instant_of_second(c.seconds());
    assert(c.millis() == c.seconds() * 1000);
}

/// The lengths of the months, with a day more in February in every fourth year, except for the
/// hundredth that is no four-hundredth.
pub proof fn law_month_lengths(year: int, month: int)
    requires
        1 <= month <= 12,
    ensures
        month != 2 ==> month_days(year, month) == seq![
            31int,
            0,
            31,
            30,
            31,
            30,
            31,
            31,
            30,
            31,
            30,
            31,
        ][month - 1],
        year % 4 != 0 ==> month_days(year, 2) == 28,
        year % 4 == 0 && year % 100 != 0 ==> month_days(year, 2) == 29,
        year % 100 == 0 && year % 400 != 0 ==> month_days(year, 2) == 28,
        year % 400 == 0 ==> month_days(year, 2) == 29,
{
}

/// The days are numbered one after another from the first day of 1970 on: within a month, from the
/// end of a month to the next, and from the end of a year to the next.
pub proof fn law_days_follow_each_other(year: int, month: int, day: int)
    requires
        1 <= month <= 12,
    ensures
        day_number(1970, 1, 1) == 0,
        day_number(year, month, day + 1) == day_number(year, month, day) + 1,
        month < 12 ==> day_number(year, month + 1, 1) == day_number(
            year,
            month,
            month_days(year, month),
        ) + 1,
        day_number(year + 1, 1, 1) == day_number(year, 12, 31) + 1,
{
    lemma_year_step(year);
    reveal_with_fuel(days_before_month, 13);
    assert(days_before_month(year, 12) == year_days(year) - 31);
}

/// The days of the week follow each other, from the Thursday on which 1970 began, and a day has
/// 86400 seconds.
pub proof fn law_weekdays_follow_each_other(seconds: int)
    ensures
        0 <= seconds < 86400 ==> weekday_of(seconds) == 4,
        weekday_of(seconds + 86400) == (weekday_of(seconds) + 1) % 7,
        0 <= weekday_of(seconds) <= 6,
{
    assert((seconds + 86400) / 86400 == seconds / 86400 + 1);
}

/// A second, a minute, an hour and a day on the clock.
pub proof fn law_clock_counts(c: Civil)
    requires
        0 < c.second < 60,
        0 < c.minute < 60,
        0 < c.hour < 24,
    ensures
        c.seconds() == (Civil { second: (c.second - 1) as u32, ..c }).seconds() + 1,
        c.seconds() == (Civil { minute: (c.minute - 1) as u32, ..c }).seconds() + 60,
        c.seconds() == (Civil { hour: (c.hour - 1) as u32, ..c }).seconds() + 3600,
        (Civil { hour: 0, minute: 0, second: 0, ..c }).seconds() == day_number(
            c.year as int,
            c.month as int,
            c.day as int,
        ) * 86400,
        c.millis() == c.seconds() * 1000 + c.nanos as int / 1_000_000,
{
}

/// The text of a date has 19 characters: the digits of the year, month, day, hour, minute and
/// second, with hyphens, a space and colons between them.
pub proof fn law_date_text_digits(c: Civil)
    requires
        0 <= c.year <= 9999,
        c.month <= 12,
        c.day <= 31,
        c.hour < 24,
        c.minute < 60,
        c.second < 60,
    ensures
        ({
            let t = date_text(c);
            &&& t.len() == 19
            &&& t[0] == 48 + c.year / 1000
            &&& t[1] == 48 + c.year / 100 % 10
            &&& t[2] == 48 + c.year / 10 % 10
            &&& t[3] == 48 + c.year % 10
            &&& t[4] == 45
            &&& t[5] == 48 + c.month / 10
            &&& t[6] == 48 + c.month % 10
            &&& t[7] == 45
            &&& t[8] == 48 + c.day / 10
            &&& t[9] == 48 + c.day % 10
            &&& t[10] == 32
            &&& t[11] == 48 + c.hour / 10
            &&& t[12] == 48 + c.hour % 10
            &&& t[13] == 58
            &&& t[14] == 48 + c.minute / 10
            &&& t[15] == 48 + c.minute % 10
            &&& t[16] == 58
            &&& t[17] == 48 + c.second / 10
            &&& t[18] == 48 + c.second % 10
        }),
{
    lemma_two_digits(c.month as nat);
    lemma_two_digits(c.day as nat);
    lemma_two_digits(c.hour as nat);
    lemma_two_digits(c.minute as nat);
    lemma_two_digits(c.second as nat);
    lemma_four_digits(c.year as nat);
}

proof fn lemma_two_digits(n: nat)
    requires
        n < 100,
    ensures
        padded(n, 2) == seq![(48 + n / 10) as u8, (48 + n % 10) as u8],
{
    reveal_with_fuel(text::dec_nat, 3);
    assert(padded(n, 2) =~= seq![(48 + n / 10) as u8, (48 + n % 10) as u8]);
}

proof fn lemma_four_digits(n: nat)
    requires
        n < 10000,
    ensures
        padded(n, 4) == seq![
            (48 + n / 1000) as u8,
            (48 + n / 100 % 10) as u8,
            (48 + n / 10 % 10) as u8,
            (48 + n % 10) as u8,
        ],
{
    reveal_with_fuel(text::dec_nat, 5);
    assert(n / 10 / 10 == n / 100 && n / 100 / 10 == n / 1000);
    assert(padded(n, 4) =~= seq![
        (48 + n / 1000) as u8,
        (48 + n / 100 % 10) as u8,
        (48 + n / 10 % 10) as u8,
        (48 + n % 10) as u8,
    ]);
}

/// Components mean themselves, with the month counted from 0. Those of no date mean the first day
/// of 1970, and those of no time mean midnight.
pub proof fn law_components_mean_themselves(
    year: int,
    month: int,
    day: int,
    hour: int,
    minute: int,
    second: int,
)
    requires
        -262143 <= year <= 262142,
    ensures
        ({
            let m = meant(year, month, day, hour, minute, second);
            &&& 0 <= month <= 11 && 1 <= day <= month_days(year, month + 1) ==> m.0 == year && m.1
                == month + 1 && m.2 == day
            &&& !(0 <= month <= 11 && 1 <= day <= month_days(year, month + 1)) ==> m.0 == 1970
                && m.1 == 1 && m.2 == 1
            &&& 0 <= hour <= 23 && 0 <= minute <= 59 && 0 <= second <= 59 ==> m.3 == hour && m.4
                == minute && m.5 == second
            &&& !(0 <= hour <= 23 && 0 <= minute <= 59 && 0 <= second <= 59) ==> m.3 == 0 && m.4
                == 0 && m.5 == 0
        }),
{
}

/// An offset in whole minutes is cut towards zero, and a clock that is ahead shows a time earlier
/// by as much.
pub proof fn law_offsets(offset: int, millis: int)
    ensures
        offset >= 0 ==> offset_minutes(offset) * 60 <= offset < offset_minutes(offset) * 60 + 60,
        offset_minutes(-offset) == -offset_minutes(offset),
        ahead(millis, offset) + offset * 1000 == millis,
{
}

/// Fields of a date are read at its second, for which the milliseconds are dropped; there is none
/// for null, nor for an instant before 1970 that is not a whole second.
pub proof fn law_instants(d: &HaxeDate)
    ensures
        instant(None) is None,
        d.millis() < 0 && d.millis() % 1000 != 0 ==> instant(Some(d)) is None,
        instant(Some(d)) matches Some(s) ==> s * 1000 <= d.millis() < s * 1000 + 1000 && in_calendar(s),
        d.millis() >= 0 && in_calendar(d.millis() / 1000) ==> instant(Some(d)) is Some,
        d.millis() % 1000 == 0 && in_calendar(d.millis() / 1000) ==> instant(Some(d)) is Some,
{
}

/// There are dates from the start of the year -262143 to the end of the year 262142.
pub proof fn law_calendar_range(seconds: int)
    ensures
        in_calendar(seconds) <==> day_number(-262143, 1, 1) * 86400 <= seconds && seconds < day_number(
            262143,
            1,
            1,
        ) * 86400,
{
    law_days_follow_each_other(262142, 12, 31);
}

/// A text is read as a date and time where it is one, else as a date, which is its midnight, else
/// as a time of the first day of 1970 in UTC.
pub proof fn law_reading_prefers_the_fullest(
    y: i32,
    m: u32,
    d: u32,
    h: u32,
    i: u32,
    s: u32,
    n: u32,
    date: Option<(i32, u32, u32)>,
    time: Option<(u32, u32, u32, u32)>,
)
    ensures
        preferred(Some((y, m, d, h, i, s, n)), date, time) == DateReading::Local(
            Civil { year: y, month: m, day: d, hour: h, minute: i, second: s, nanos: n },
        ),
        preferred(None, Some((y, m, d)), time) == DateReading::Local(
            Civil { year: y, month: m, day: d, hour: 0, minute: 0, second: 0, nanos: 0 },
        ),
        preferred(None, None, Some((h, i, s, n))) == DateReading::Utc(
            Civil { year: 1970, month: 1, day: 1, hour: h, minute: i, second: s, nanos: n },
        ),
        preferred(None, None, None) == DateReading::Unreadable,
{
}

/// Years outside 0 to 9999 are shown with their sign.
pub proof fn law_year_texts(year: int)
    ensures
        0 < year <= 9999 ==> year_text(-year) == seq![45u8] + year_text(year),
        year > 9999 ==> year_text(year) == seq![43u8] + text::dec_int(year),
        year > 9999 ==> year_text(-year) == seq![45u8] + text::dec_int(year),
{
    if year > 9999 {
        reveal_with_fuel(text::dec_nat, 6);
        assert(text::dec_nat(year as nat).len() >= 4) by {
            text::lemma_dec_nat((year / 10 / 10 / 10) as nat);
        }
    }
}

} // verus!
