//! The day clock: a logical day starts a fixed number of hours after local
//! midnight, so instants before that belong to the previous day.
use vstd::prelude::*;

verus! {

/// How long after local midnight a logical day begins (4 hours).
pub const DAY_START_OFFSET_SECS: i64 = 14400;

pub const SECS_PER_DAY: i64 = 86400;

/// A logical day, counted in days from 1970-01-01 of the local calendar.
#[derive(Clone, Copy, Debug, PartialEq, Eq, Structural)]
pub struct LogicalDay {
    pub epoch_day: i64,
}

/// The local calendar day (days from 1970-01-01) that holds `instant` (Unix
/// seconds) in a zone `utc_offset` seconds ahead of UTC.
pub open spec fn local_day(instant: int, utc_offset: int) -> int {
    (instant + utc_offset) / (SECS_PER_DAY as int)
}

/// The logical day of an instant: the local calendar day of the instant
/// shifted back by the day-start offset.
pub open spec fn logical_day(instant: int, utc_offset: int) -> int {
    local_day(instant - DAY_START_OFFSET_SECS, utc_offset)
}

/// The logical day of `instant` where local time is `utc_offset` seconds ahead of UTC.
pub fn logical_day_at(instant: i64, utc_offset: i32) -> (r: LogicalDay)
    ensures
        r.epoch_day == logical_day(instant as int, utc_offset as int),
{
    let t: i128 = instant as i128 + utc_offset as i128 - DAY_START_OFFSET_SECS as i128;
    let d: i128 = if t >= 0 {
        (t as u128 / 86400) as i128
    } else {
        let n: u128 = (-t) as u128;
        let q: u128 = (n + 86399) / 86400;
        assert(t / 86400 == -(q as int));
        -(q as i128)
    };
    LogicalDay { epoch_day: d as i64 }
}

/// Where a logical day starts and ends, given the instant of its local midnight.
pub open spec fn day_bounds(midnight: int) -> (int, int) {
    (midnight + DAY_START_OFFSET_SECS, midnight + DAY_START_OFFSET_SECS + SECS_PER_DAY)
}

/// The half-open query interval of a logical day, given the instant of its
/// local midnight: from the day-start offset past midnight to 24 hours later.
pub fn bounds_from_midnight(midnight: i64) -> (r: Option<(i64, i64)>)
    ensures
        match r {
            Some(b) => day_bounds(midnight as int) == (b.0 as int, b.1 as int),
            None => day_bounds(midnight as int).1 > i64::MAX,
        },
{
    if midnight > i64::MAX - DAY_START_OFFSET_SECS - SECS_PER_DAY {
        return None;
    }
    Some((midnight + DAY_START_OFFSET_SECS, midnight + DAY_START_OFFSET_SECS + SECS_PER_DAY))
}

/// Relies on chrono's `Utc::now`: the current instant in Unix seconds; any value may come back.
#[verifier::external_body]
fn now_timestamp() -> (r: i64) {
    chrono::Utc::now().timestamp()
}

/// Relies on chrono's `Local` zone (`offset_from_utc_datetime`, through
/// `DateTime::from_timestamp`): the local offset from UTC at an instant, which
/// chrono's `FixedOffset` keeps strictly within one day. Without zone data
/// chrono falls back to UTC; it panics on zone data it cannot use.
#[verifier::external_body]
fn utc_offset_at(instant: i64) -> (r: Option<i32>)
    ensures
        r matches Some(o) ==> -86400 < o < 86400,
{
    match chrono::DateTime::from_timestamp(instant, 0) {
        Some(t) => Some(
            <chrono::Local as chrono::TimeZone>::offset_from_utc_datetime(
                &chrono::Local,
                &t.naive_utc(),
            ).local_minus_utc(),
        ),
        None => None,
    }
}

/// Relies on chrono's `Local` zone (`from_local_datetime(..).single()`): the
/// instant of a local wall-clock time given in seconds from 1970-01-01, when
/// that wall-clock time occurs exactly once; it differs from the local time by
/// the zone's offset, which is strictly within one day. Without zone data
/// chrono falls back to UTC; it panics on zone data it cannot use.
#[verifier::external_body]
fn instant_of_local(local: i64) -> (r: Option<i64>)
    ensures
        r matches Some(t) ==> local - 86400 < t < local + 86400,
{
    match chrono::DateTime::from_timestamp(local, 0) {
        Some(t) => <chrono::Local as chrono::TimeZone>::from_local_datetime(
            &chrono::Local,
            &t.naive_utc(),
        ).single().map(|d| d.timestamp()),
        None => None,
    }
}

/// The calendar date (year, month, day) of a day counted from 1970-01-01.
pub uninterp spec fn civil_of_epoch_day(day: int) -> (int, int, int);

/// Relies on chrono's `NaiveDate::from_epoch_days` with `Datelike`'s `year`,
/// `month` and `day`: the proleptic Gregorian date of a day number, `None`
/// outside chrono's range.
#[verifier::external_body]
fn civil_from_epoch_day(day: i32) -> (r: Option<(i32, u32, u32)>)
    ensures
        r matches Some(c) ==> civil_of_epoch_day(day as int) == (c.0 as int, c.1 as int, c.2 as int)
            && valid_date(c.0 as int, c.1 as int, c.2 as int),
        -90_000_000 <= day <= 90_000_000 ==> r is Some,
{
    chrono::NaiveDate::from_epoch_days(day).map(
        |d| (chrono::Datelike::year(&d), chrono::Datelike::month(&d), chrono::Datelike::day(&d)),
    )
}

pub open spec fn is_leap_year(y: int) -> bool {
    (y % 4 == 0 && y % 100 != 0) || y % 400 == 0
}

pub open spec fn days_in_month(y: int, m: int) -> int {
    if m == 2 {
        if is_leap_year(y) { 29 } else { 28 }
    } else if m == 4 || m == 6 || m == 9 || m == 11 {
        30
    } else {
        31
    }
}

pub open spec fn valid_date(y: int, m: int, d: int) -> bool {
    1 <= m <= 12 && 1 <= d <= days_in_month(y, m)
}

/// The logical day that holds the current instant, in the local zone; `None`
/// where the clock or the zone gives no answer.
pub fn today() -> (r: Option<LogicalDay>)
    ensures
        r matches Some(d) ==> exists|t: int, o: int|
            -86400 < o < 86400 && #[trigger] logical_day(t, o) == d.epoch_day,
{
    let now = now_timestamp();
    if now < i64::MIN + DAY_START_OFFSET_SECS {
        return None;
    }
    match utc_offset_at(now - DAY_START_OFFSET_SECS) {
        Some(offset) => Some(logical_day_at(now, offset)),
        None => None,
    }
}

/// The half-open interval of instants that a logical day covers: from the
/// day-start offset past its local midnight to exactly 24 hours later.
/// `None` where its local midnight does not occur exactly once in the local zone.
pub fn range(day: LogicalDay) -> (r: Option<(i64, i64)>)
    ensures
        r matches Some(b) ==> b.1 - b.0 == SECS_PER_DAY
            && exists|m: int| day_bounds(m) == (b.0 as int, b.1 as int)
                && day.epoch_day * SECS_PER_DAY - SECS_PER_DAY < m < day.epoch_day * SECS_PER_DAY + SECS_PER_DAY,
        day.epoch_day < i64::MIN / SECS_PER_DAY || day.epoch_day > i64::MAX / SECS_PER_DAY ==> r is None,
{
    if day.epoch_day < i64::MIN / SECS_PER_DAY || day.epoch_day > i64::MAX / SECS_PER_DAY {
        return None;
    }
    let local_midnight = day.epoch_day * SECS_PER_DAY;
    match instant_of_local(local_midnight) {
        Some(m) => bounds_from_midnight(m),
        None => None,
    }
}

/// The calendar date (year, month, day) of a logical day.
pub fn civil_date(day: LogicalDay) -> (r: Option<(i32, u32, u32)>)
    ensures
        r matches Some(c) ==> civil_of_epoch_day(day.epoch_day as int) == (c.0 as int, c.1 as int, c.2 as int)
            && valid_date(c.0 as int, c.1 as int, c.2 as int),
        -90_000_000 <= day.epoch_day <= 90_000_000 ==> r is Some,
{
    if day.epoch_day < i32::MIN as i64 || day.epoch_day > i32::MAX as i64 {
        return None;
    }
    civil_from_epoch_day(day.epoch_day as i32)
}

/// The logical day of an instant is the local calendar day of the instant
/// moved back by the day-start offset. So a local time `secs_of_day` seconds
/// into local calendar day `day` belongs to logical day `day - 1` while
/// `secs_of_day` is under the offset, and to `day` from the offset on.
pub proof fn lemma_logical_day_of_local_time(day: int, secs_of_day: int, utc_offset: int)
    requires
        0 <= secs_of_day < SECS_PER_DAY,
    ensures
        logical_day(day * SECS_PER_DAY + secs_of_day - utc_offset, utc_offset)
            == local_day(day * SECS_PER_DAY + secs_of_day - utc_offset - DAY_START_OFFSET_SECS, utc_offset),
        logical_day(day * SECS_PER_DAY + secs_of_day - utc_offset, utc_offset)
            == if secs_of_day < DAY_START_OFFSET_SECS { day - 1 } else { day },
{
    let t = day * SECS_PER_DAY + secs_of_day - DAY_START_OFFSET_SECS;
    if secs_of_day < DAY_START_OFFSET_SECS {
        assert(t == (day - 1) * 86400 + (secs_of_day + 72000));
        vstd::arithmetic::div_mod::lemma_fundamental_div_mod_converse(t, 86400, day - 1, secs_of_day + 72000);
    } else {
        assert(t == day * 86400 + (secs_of_day - 14400));
        vstd::arithmetic::div_mod::lemma_fundamental_div_mod_converse(t, 86400, day, secs_of_day - 14400);
    }
}

/// A logical day's interval is exactly 24 hours long and starts the day-start
/// offset after local midnight. In a zone with a fixed offset, every instant
/// of the interval of day `day` has `day` as its logical day, whichever of
/// them was used to find the day.
pub proof fn lemma_day_bounds(day: int, utc_offset: int, instant: int)
    ensures
        day_bounds(day * SECS_PER_DAY - utc_offset).1 - day_bounds(day * SECS_PER_DAY - utc_offset).0
            == SECS_PER_DAY,
        day_bounds(day * SECS_PER_DAY - utc_offset).0
            == day * SECS_PER_DAY - utc_offset + DAY_START_OFFSET_SECS,
        day_bounds(day * SECS_PER_DAY - utc_offset).0 <= instant < day_bounds(day * SECS_PER_DAY - utc_offset).1
            ==> logical_day(instant, utc_offset) == day,
{
    let b = day_bounds(day * SECS_PER_DAY - utc_offset);
    if b.0 <= instant < b.1 {
        let r = instant + utc_offset - DAY_START_OFFSET_SECS - day * SECS_PER_DAY;
        vstd::arithmetic::div_mod::lemma_fundamental_div_mod_converse(
            instant + utc_offset - DAY_START_OFFSET_SECS,
            86400,
            day,
            r,
        );
    }
}

} // verus!
