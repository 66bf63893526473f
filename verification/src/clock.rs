//! Points in time: reading, writing, comparing and the calendar.
use crate::text::{padded, padded_decimal};
use vstd::prelude::*;

verus! {

/// A point in time: seconds since the Unix epoch and the nanoseconds past
/// them. A leap second has a thousand million nanoseconds or more.
#[derive(Clone, Copy, Debug, PartialEq, Eq)]
pub struct Moment {
    pub seconds: i64,
    pub nanos: u32,
}

/// The years that a date can be written in.
pub open spec fn is_ordinary(m: Moment) -> bool {
    -62_167_219_200 <= m.seconds <= 253_402_300_799 && m.nanos < 1_000_000_000
}

/// The bounds of the clock and of dates that were read.
pub open spec fn in_range(m: Moment) -> bool {
    -62_167_305_600 <= m.seconds <= 8_210_266_876_799 && m.nanos < 2_000_000_000
}

/// The moments that the clock can show: from the epoch to the end of chrono's
/// calendar, without leap seconds.
pub open spec fn on_clock(m: Moment) -> bool {
    0 <= m.seconds <= 8_210_266_876_799 && m.nanos < 1_000_000_000
}

/// Whether `a` is no later than `b`.
pub open spec fn no_later(a: Moment, b: Moment) -> bool {
    a.seconds < b.seconds || (a.seconds == b.seconds && a.nanos <= b.nanos)
}

/// A moment as a pair of numbers.
pub open spec fn as_pair(result: Result<Moment, String>) -> Result<(i64, u32), Seq<char>> {
    match result {
        Ok(m) => Ok((m.seconds, m.nanos)),
        Err(error) => Err(error@),
    }
}

/// What chrono reads in an RFC 3339 date and time: the seconds and
/// nanoseconds, or the words of its error.
pub uninterp spec fn rfc3339_reading(text: Seq<char>) -> Result<(i64, u32), Seq<char>>;

/// How chrono writes a moment as an RFC 3339 date and time with milliseconds,
/// where it is within chrono's calendar.
pub uninterp spec fn rfc3339_millis(seconds: i64, nanos: u32) -> Option<Seq<char>>;

/// The year, month, day, hour and minute that chrono gives to the minute with
/// this number since the Unix epoch, where it is within chrono's calendar.
pub uninterp spec fn utc_minute(minute: int) -> Option<(i32, u32, u32, u32, u32)>;

/// `chrono::Utc::now`: the clock. What it shows is not claimed, only that it
/// is not before the epoch nor past chrono's calendar, and no leap second.
#[verifier::external_body]
pub(crate) fn utc_now() -> (r: Moment)
    ensures
        on_clock(r),
{
    let now = chrono::Utc::now();
    Moment { seconds: now.timestamp(), nanos: now.timestamp_subsec_nanos() }
}

/// `chrono::DateTime::parse_from_rfc3339`. A date that is read has a year of
/// four digits and an offset of less than a day.
#[verifier::external_body]
fn parse_rfc3339(text: &str) -> (r: Result<Moment, String>)
    ensures
        as_pair(r) == rfc3339_reading(text@),
        r matches Ok(m) ==> -62_167_305_600 <= m.seconds <= 253_402_387_199 && m.nanos
            < 2_000_000_000,
{
    match chrono::DateTime::parse_from_rfc3339(text) {
        Ok(time) => Ok(
            Moment { seconds: time.timestamp(), nanos: time.timestamp_subsec_nanos() },
        ),
        Err(error) => Err(error.to_string()),
    }
}

/// `chrono::DateTime::to_rfc3339_opts` with milliseconds, in UTC. A moment of
/// the years 0 to 9999 that is no leap second can be written, and reads back
/// as itself, cut to whole milliseconds; so can any moment of the clock.
#[verifier::external_body]
fn write_rfc3339(m: Moment) -> (r: Option<String>)
    ensures
        crate::text::text_option(r) == rfc3339_millis(m.seconds, m.nanos),
        is_ordinary(m) || on_clock(m) ==> r is Some,
        is_ordinary(m) ==> rfc3339_reading(r.unwrap()@) is Ok && rfc3339_reading(r.unwrap()@)->Ok_0
            == (m.seconds, (m.nanos - m.nanos % 1_000_000) as u32),
{
    chrono::DateTime::<chrono::Utc>::from_timestamp(m.seconds, m.nanos).map(
        |time| time.to_rfc3339_opts(chrono::SecondsFormat::Millis, true),
    )
}

/// A minute of the calendar.
#[derive(Clone, Copy, Debug, PartialEq, Eq)]
pub struct CalendarMinute {
    pub year: i32,
    pub month: u32,
    pub day: u32,
    pub hour: u32,
    pub minute: u32,
}

/// The numbers of a calendar minute.
pub open spec fn fields(result: Option<CalendarMinute>) -> Option<(i32, u32, u32, u32, u32)> {
    match result {
        Some(m) => Some((m.year, m.month, m.day, m.hour, m.minute)),
        None => None,
    }
}

/// Whether one calendar minute comes before another.
pub open spec fn earlier_minute(a: (i32, u32, u32, u32, u32), b: (i32, u32, u32, u32, u32)) -> bool {
    ||| a.0 < b.0
    ||| a.0 == b.0 && a.1 < b.1
    ||| a.0 == b.0 && a.1 == b.1 && a.2 < b.2
    ||| a.0 == b.0 && a.1 == b.1 && a.2 == b.2 && a.3 < b.3
    ||| a.0 == b.0 && a.1 == b.1 && a.2 == b.2 && a.3 == b.3 && a.4 < b.4
}

/// `chrono::DateTime::from_timestamp` with `year`, `month`, `day`, `hour` and
/// `minute`. They are those of the minute that holds the second, in their
/// usual bounds, and grow with time; for every date that can be read, and
/// until the end of chrono's calendar, there is one.
#[verifier::external_body]
fn utc_fields(seconds: i64) -> (r: Option<CalendarMinute>)
    ensures
        fields(r) == utc_minute(seconds as int / 60),
        -62_167_305_600 <= seconds <= 8_210_266_876_799 ==> r is Some,
        seconds >= -62_167_219_200 && r is Some ==> 0 <= r.unwrap().year,
        seconds <= 253_402_300_799 && r is Some ==> r.unwrap().year <= 9_999,
        r matches Some(m) ==> 1 <= m.month <= 12 && 1 <= m.day <= 31 && m.hour < 24 && m.minute < 60,
        forall|other: int|
            #![trigger utc_minute(other)]
            r is Some && other < seconds as int / 60 && utc_minute(other) is Some ==> earlier_minute(
                utc_minute(other).unwrap(),
                fields(r).unwrap(),
            ),
{
    chrono::DateTime::<chrono::Utc>::from_timestamp(seconds, 0).map(
        |time|
            CalendarMinute {
                year: chrono::Datelike::year(&time),
                month: chrono::Datelike::month(&time),
                day: chrono::Datelike::day(&time),
                hour: chrono::Timelike::hour(&time),
                minute: chrono::Timelike::minute(&time),
            },
    )
}

/// The clock.
pub fn current_moment() -> (r: Moment)
    ensures
        on_clock(r),
{
    utc_now()
}

/// A text that the clock may have given.
pub open spec fn is_timestamp(text: Seq<char>) -> bool {
    exists|m: Moment| on_clock(m) && #[trigger] rfc3339_millis(m.seconds, m.nanos) == Some(text)
}

/// The time of the clock in text.
pub fn timestamp() -> (r: String)
    ensures
        is_timestamp(r@),
{
    let now: Moment = current_moment();
    match write_moment(now) {
        Some(text) => text,
        None => {
            assert(false);
            String::new()
        },
    }
}

/// The moment that a date and time in text names.
pub fn read_moment(text: &str) -> (r: Result<Moment, String>)
    ensures
        as_pair(r) == rfc3339_reading(text@),
        r matches Ok(m) ==> in_range(m),
{
    parse_rfc3339(text)
}

/// A moment in text, with milliseconds, where the calendar reaches so far.
pub fn write_moment(m: Moment) -> (r: Option<String>)
    ensures
        crate::text::text_option(r) == rfc3339_millis(m.seconds, m.nanos),
        is_ordinary(m) || on_clock(m) ==> r is Some,
        is_ordinary(m) ==> rfc3339_reading(r.unwrap()@) is Ok && rfc3339_reading(r.unwrap()@)->Ok_0
            == (m.seconds, (m.nanos - m.nanos % 1_000_000) as u32),
{
    write_rfc3339(m)
}

/// Whether `a` is no later than `b`.
pub fn is_no_later(a: Moment, b: Moment) -> (r: bool)
    ensures
        r == no_later(a, b),
{
    a.seconds < b.seconds || (a.seconds == b.seconds && a.nanos <= b.nanos)
}

/// Whole seconds from `seen` to `now`, none if `seen` lies ahead. A leap
/// second of `seen` that is over by the time of day counts as one of its own.
pub open spec fn whole_seconds(now: Moment, seen: Moment) -> int {
    let leap: int = if seen.nanos >= 1_000_000_000 && now.seconds % 86_400 > seen.seconds % 86_400 {
        1
    } else {
        0
    };
    let span = (now.seconds - seen.seconds + leap) * 1_000_000_000 + now.nanos - seen.nanos;
    if span < 0 {
        0
    } else {
        span / 1_000_000_000
    }
}

/// Whole seconds from `seen` to `now`, none if `seen` lies ahead.
pub fn age_in_seconds(now: Moment, seen: Moment) -> (r: u64)
    requires
        on_clock(now),
        in_range(seen),
    ensures
        r as int == whole_seconds(now, seen),
{
    let day: i64 = 86_400;
    let base: i64 = 62_167_392_000;
    // Days before the epoch are moved past it, which keeps the time of day.
    let now_of_day: i64 = (now.seconds + base) % day;
    let seen_of_day: i64 = (seen.seconds + base) % day;
    let leap: i64 = if seen.nanos >= 1_000_000_000 && now_of_day > seen_of_day {
        1
    } else {
        0
    };
    let span: i128 = (now.seconds - seen.seconds + leap) as i128 * 1_000_000_000 + now.nanos as i128
        - seen.nanos as i128;
    if span < 0 {
        0
    } else {
        (span / 1_000_000_000) as u64
    }
}

/// Milliseconds since the Unix epoch, none before it.
pub open spec fn epoch_millis(m: Moment) -> int {
    let millis = m.seconds * 1000 + m.nanos / 1_000_000;
    if millis < 0 {
        0
    } else {
        millis
    }
}

/// Milliseconds since the Unix epoch of the moment `minutes` before `m`.
pub fn millis_before(m: Moment, minutes: u32) -> (r: u64)
    requires
        in_range(m),
        minutes <= 60,
    ensures
        r as int == epoch_millis(Moment { seconds: (m.seconds - 60 * minutes) as i64, nanos: m.nanos }),
{
    let millis: i64 = (m.seconds - 60 * (minutes as i64)) * 1000 + (m.nanos / 1_000_000) as i64;
    if millis < 0 {
        0
    } else {
        millis as u64
    }
}

/// The minute of the calendar that holds a second.
pub fn calendar_minute(seconds: i64) -> (r: Option<CalendarMinute>)
    ensures
        fields(r) == utc_minute(seconds as int / 60),
        -62_167_305_600 <= seconds <= 8_210_266_876_799 ==> r is Some,
        seconds >= -62_167_219_200 && r is Some ==> 0 <= r.unwrap().year,
        seconds <= 253_402_300_799 && r is Some ==> r.unwrap().year <= 9_999,
        r matches Some(m) ==> 1 <= m.month <= 12 && 1 <= m.day <= 31 && m.hour < 24 && m.minute < 60,
        forall|other: int|
            #![trigger utc_minute(other)]
            r is Some && other < seconds as int / 60 && utc_minute(other) is Some ==> earlier_minute(
                utc_minute(other).unwrap(),
                fields(r).unwrap(),
            ),
{
    utc_fields(seconds)
}

/// The names of the directories that stand for a calendar minute.
pub open spec fn minute_names(m: (i32, u32, u32, u32, u32)) -> Seq<Seq<char>> {
    seq![
        padded(m.0 as int, 4),
        padded(m.1 as int, 2),
        padded(m.2 as int, 2),
        padded(m.3 as int, 2),
        padded(m.4 as int, 2),
    ]
}

/// The names of the directories that stand for a calendar minute.
pub fn minute_directories(m: CalendarMinute) -> (r: Vec<String>)
    requires
        m.month < 100,
        m.day < 100,
        m.hour < 100,
        m.minute < 100,
    ensures
        crate::text::texts(r@) == minute_names((m.year, m.month, m.day, m.hour, m.minute)),
{
    let mut out: Vec<String> = Vec::new();
    out.push(padded_decimal(m.year, 4));
    out.push(padded_decimal(m.month as i32, 2));
    out.push(padded_decimal(m.day as i32, 2));
    out.push(padded_decimal(m.hour as i32, 2));
    out.push(padded_decimal(m.minute as i32, 2));
    assert(crate::text::texts(out@) =~= minute_names((m.year, m.month, m.day, m.hour, m.minute)));
    out
}

/// A span of time: whole seconds and the nanoseconds past them.
#[derive(Clone, Copy, Debug, PartialEq, Eq)]
pub struct Interval {
    pub seconds: u64,
    pub nanos: u32,
}

/// The nanoseconds of a span.
pub open spec fn span(interval: Interval) -> int {
    interval.seconds * 1_000_000_000 + interval.nanos
}

/// The nanoseconds of a span.
pub fn nanoseconds(interval: Interval) -> (r: u128)
    ensures
        r as int == span(interval),
        r < 0x1_0000_0000_0000_0000_0000_0000u128,
{
    interval.seconds as u128 * 1_000_000_000 + interval.nanos as u128
}

} // verus!
