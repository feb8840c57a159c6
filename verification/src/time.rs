use vstd::prelude::*;

verus! {

/// Seconds in an hour.
pub const SECS_PER_HOUR: i64 = 3600;

/// Seconds in a day.
pub const SECS_PER_DAY: i64 = 86400;

/// Bound on the magnitude of a timestamp (seconds since 1970-01-01T00:00:00,
/// naive, without time zone). Every date that a calendar can represent lies within it.
pub const TIME_LIMIT: i64 = 8_796_093_004_800;

/// A timestamp within the supported range.
pub open spec fn time_ok(t: int) -> bool {
    -TIME_LIMIT <= t <= TIME_LIMIT
}

/// Seconds elapsed since the midnight that starts the day of `t`.
pub open spec fn secs_of_day(t: int) -> int {
    t % (SECS_PER_DAY as int)
}

/// The hour of the day of `t` (0..24).
pub open spec fn hour_of(t: int) -> int {
    secs_of_day(t) / (SECS_PER_HOUR as int)
}

/// The midnight that starts the day of `t`.
pub open spec fn day_start_of(t: int) -> int {
    t - secs_of_day(t)
}

/// The number of the day of `t`, counted from 1970-01-01.
pub open spec fn day_number_of(t: int) -> int {
    t / (SECS_PER_DAY as int)
}

/// `t` moved to hour `h` of the same day, keeping minutes and seconds.
pub open spec fn with_hour_of(t: int, h: int) -> int {
    day_start_of(t) + h * SECS_PER_HOUR + t % (SECS_PER_HOUR as int)
}

/// The day of the week of `t`: 0 is Monday, 6 is Sunday (1970-01-01 was a Thursday).
pub open spec fn weekday_of(t: int) -> int {
    (day_number_of(t) + 3) % 7
}

/// Whole hours from `start` to `end`, truncated toward zero.
pub open spec fn hours_between(start: int, end: int) -> int {
    if end >= start {
        (end - start) / (SECS_PER_HOUR as int)
    } else {
        -((start - end) / (SECS_PER_HOUR as int))
    }
}

/// Seconds since the midnight that starts the day of `t`.
pub fn seconds_of_day(t: i64) -> (r: i64)
    requires
        time_ok(t as int),
    ensures
        r == secs_of_day(t as int),
        0 <= r < SECS_PER_DAY,
{
    match t.checked_rem_euclid(SECS_PER_DAY) {
        Some(r) => r,
        None => 0,
    }
}

/// The hour of the day of `t`.
pub fn hour(t: i64) -> (r: usize)
    requires
        time_ok(t as int),
    ensures
        r == hour_of(t as int),
        r < 24,
{
    let s = seconds_of_day(t);
    (s / SECS_PER_HOUR) as usize
}

/// The midnight that starts the day of `t`.
pub fn day_start(t: i64) -> (r: i64)
    requires
        time_ok(t as int),
    ensures
        r == day_start_of(t as int),
        time_ok(r as int) || r >= -TIME_LIMIT - SECS_PER_DAY,
        r <= t,
{
    t - seconds_of_day(t)
}

/// The number of the day of `t`, counted from 1970-01-01.
pub fn day_number(t: i64) -> (r: i64)
    requires
        time_ok(t as int),
    ensures
        r == day_number_of(t as int),
{
    match t.checked_div_euclid(SECS_PER_DAY) {
        Some(r) => r,
        None => 0,
    }
}

/// `t` moved to hour `h` of the same day.
pub fn with_hour(t: i64, h: usize) -> (r: i64)
    requires
        time_ok(t as int),
        h <= 24,
    ensures
        r == with_hour_of(t as int, h as int),
{
    let m = match t.checked_rem_euclid(SECS_PER_HOUR) {
        Some(m) => m,
        None => 0,
    };
    day_start(t) + (h as i64) * SECS_PER_HOUR + m
}

/// The day of the week of `t` (0 is Monday).
pub fn weekday(t: i64) -> (r: usize)
    requires
        time_ok(t as int),
    ensures
        r == weekday_of(t as int),
        r < 7,
{
    let d = day_number(t) + 3;
    match d.checked_rem_euclid(7) {
        Some(r) => r as usize,
        None => 0,
    }
}

/// Whole hours from `start` to `end`, truncated toward zero.
pub fn hours_from_to(start: i64, end: i64) -> (r: i64)
    requires
        time_ok(start as int),
        time_ok(end as int),
    ensures
        r == hours_between(start as int, end as int),
{
    if end >= start {
        (end - start) / SECS_PER_HOUR
    } else {
        -((start - end) / SECS_PER_HOUR)
    }
}

} // verus!
