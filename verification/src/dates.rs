//! Civil-time arithmetic on plain integers.
//!
//! A civil (wall-clock) moment is a count of seconds measured from the civil
//! epoch 1970-01-01T00:00:00 in the local timeline; a calendar day is the
//! floor of that count divided by the seconds in a day, so day 0 is the epoch
//! day itself.  Weeks are identified by their Monday: the epoch day was a
//! Thursday, which anchors the weekday computation.

use vstd::prelude::*;
use chrono::Datelike;
use vstd::arithmetic::div_mod::{
    lemma_fundamental_div_mod, lemma_fundamental_div_mod_converse_div, lemma_mod_bound,
};

verus! {

/// Seconds in one civil day.
pub const SECS_PER_DAY: i64 = 86400;

/// Every timestamp the calendar library can represent lies within this
/// bound: its years span roughly plus or minus 262000, below 8.4e12
/// seconds from the epoch.
pub const MAX_ABS_TIMESTAMP: i64 = 10_000_000_000_000;

/// Bound on the civil seconds values the library works with; comfortably
/// beyond any timestamp of the supported calendar range, even after a UTC
/// offset is added.
pub const MAX_CIVIL_SECS: i64 = 20_000_000_000_000;

/// Bound on calendar day numbers, matching `MAX_CIVIL_SECS`.
pub const MAX_DAY: i64 = 300_000_000;

/// The calendar day that a civil second belongs to.
pub open spec fn day_of(c: int) -> int {
    c / (SECS_PER_DAY as int)
}

/// The time of day (seconds since the day's midnight) of a civil second.
pub open spec fn tod_of(c: int) -> int {
    c % (SECS_PER_DAY as int)
}

/// Weekday of a day number, with Monday = 0 and Sunday = 6.
/// Day 0 (1970-01-01) was a Thursday, hence the shift by 3.
pub open spec fn weekday_of(day: int) -> int {
    (day + 3) % 7
}

/// The Monday of the week that a day belongs to.
pub open spec fn monday_of(day: int) -> int {
    day - weekday_of(day)
}

proof fn lemma_day_quotient_in_range(c: int)
    requires
        i64::MIN <= c <= i64::MAX,
    ensures
        i64::MIN <= c / (SECS_PER_DAY as int) <= i64::MAX,
        c - (SECS_PER_DAY as int) < (SECS_PER_DAY as int) * (c / (SECS_PER_DAY as int)) <= c,
{
    lemma_fundamental_div_mod(c, SECS_PER_DAY as int);
    lemma_mod_bound(c, SECS_PER_DAY as int);
}

/// A bounded civil second falls on a bounded day, and within that day's
/// span of seconds.
pub proof fn lemma_day_bounds(c: int)
    requires
        -MAX_CIVIL_SECS <= c <= MAX_CIVIL_SECS,
    ensures
        -MAX_DAY < day_of(c) < MAX_DAY,
        day_of(c) * (SECS_PER_DAY as int) <= c < (day_of(c) + 1) * (SECS_PER_DAY as int),
        tod_of(c) == c - day_of(c) * (SECS_PER_DAY as int),
        0 <= tod_of(c) < SECS_PER_DAY,
{
    lemma_fundamental_div_mod(c, SECS_PER_DAY as int);
    lemma_mod_bound(c, SECS_PER_DAY as int);
}

/// Calendar day of a civil second (floor division).
pub fn civil_day(c: i64) -> (d: i64)
    ensures
        d == day_of(c as int),
{
    proof {
        lemma_day_quotient_in_range(c as int);
    }
    match c.checked_div_euclid(SECS_PER_DAY) {
        Some(d) => d,
        None => {
            proof {
                assert(false);
            }
            0
        },
    }
}

/// Time of day of a civil second.
pub fn civil_tod(c: i64) -> (t: i64)
    ensures
        t == tod_of(c as int),
        0 <= t < SECS_PER_DAY,
{
    proof {
        lemma_mod_bound(c as int, SECS_PER_DAY as int);
    }
    match c.checked_rem_euclid(SECS_PER_DAY) {
        Some(t) => t,
        None => {
            proof {
                assert(false);
            }
            0
        },
    }
}

/// The civil second at which a calendar day begins.
pub fn midnight_of(day: i64) -> (c: i64)
    requires
        -MAX_DAY <= day <= MAX_DAY,
    ensures
        c == day * (SECS_PER_DAY as int),
        day_of(c as int) == day,
        tod_of(c as int) == 0,
{
    proof {
        lemma_fundamental_div_mod(day * (SECS_PER_DAY as int), SECS_PER_DAY as int);
        lemma_mod_bound(day * (SECS_PER_DAY as int), SECS_PER_DAY as int);
        lemma_fundamental_div_mod_converse_div(day * (SECS_PER_DAY as int), SECS_PER_DAY as int, day as int, 0);
    }
    day * SECS_PER_DAY
}

/// Weekday of a day number, Monday = 0.
pub fn weekday_of_day(day: i64) -> (w: i64)
    requires
        -MAX_DAY <= day <= MAX_DAY,
    ensures
        w == weekday_of(day as int),
        0 <= w < 7,
{
    proof {
        lemma_mod_bound(day + 3, 7);
    }
    match (day + 3).checked_rem_euclid(7) {
        Some(w) => w,
        None => {
            proof {
                assert(false);
            }
            0
        },
    }
}

/// What the calendar library reports as the civil date of a calendar day
/// number: year (negative before the common era), zero-based month and
/// zero-based day; nothing when the day lies outside its supported range.
pub uninterp spec fn calendar_ymd(day: int) -> Option<(int, int, int)>;

/// The calendar day number of a civil date given as year, one-based month
/// and one-based day; nothing when the date is invalid or out of range.
pub uninterp spec fn calendar_day_num(year: int, month: int, day: int) -> Option<int>;

/// Relies on chrono's `DateTime::from_timestamp` and the `Datelike`
/// accessors: the civil date belonging to a timestamp is that of its
/// calendar day, the floor of `secs / 86400`.  Months index below 12,
/// days below 31, years lie within chrono's documented span of roughly
/// plus or minus 262000.
#[verifier::external_body]
fn chrono_ymd_of_secs(secs: i64) -> (r: Option<(i32, u32, u32)>)
    ensures
        r matches Some(t) ==> calendar_ymd(day_of(secs as int)) == Some(
            (t.0 as int, t.1 as int, t.2 as int),
        ) && -262143 <= t.0 <= 262142 && t.1 < 12 && t.2 < 31,
        r is None ==> calendar_ymd(day_of(secs as int)) is None,
{
    match chrono::DateTime::from_timestamp(secs, 0) {
        Some(dt) => {
            let date = dt.date_naive();
            Some((date.year(), date.month0(), date.day0()))
        },
        None => None,
    }
}

/// Relies on chrono's `NaiveDate::from_ymd_opt`, `NaiveDate::and_time`
/// and `DateTime::timestamp`: the midnight beginning a valid civil date,
/// as a timestamp that is an exact multiple of the day length and within
/// the calendar bound.
#[verifier::external_body]
fn chrono_midnight_secs(year: i32, month: u32, day: u32) -> (r: Option<i64>)
    ensures
        r matches Some(s) ==> calendar_day_num(year as int, month as int, day as int) == Some(
            day_of(s as int),
        ) && s as int % (SECS_PER_DAY as int) == 0 && -MAX_ABS_TIMESTAMP <= s
            <= MAX_ABS_TIMESTAMP,
        r is None ==> calendar_day_num(year as int, month as int, day as int) is None,
{
    match chrono::NaiveDate::from_ymd_opt(year, month, day) {
        Some(d) => Some(d.and_time(chrono::NaiveTime::MIN).and_utc().timestamp()),
        None => None,
    }
}

/// The civil date of a calendar day, from the calendar library.
pub fn ymd_of_day(day: i64) -> (r: Option<(i32, u32, u32)>)
    requires
        -MAX_DAY <= day <= MAX_DAY,
    ensures
        r matches Some(t) ==> calendar_ymd(day as int) == Some(
            (t.0 as int, t.1 as int, t.2 as int),
        ) && -262143 <= t.0 <= 262142 && t.1 < 12 && t.2 < 31,
        r is None ==> calendar_ymd(day as int) is None,
{
    let secs = midnight_of(day);
    chrono_ymd_of_secs(secs)
}

/// The calendar day number of a civil date (year, one-based month,
/// one-based day), from the calendar library.
pub fn day_of_ymd(year: i32, month: u32, day: u32) -> (r: Option<i64>)
    ensures
        r matches Some(d) ==> calendar_day_num(year as int, month as int, day as int) == Some(
            d as int,
        ) && -MAX_DAY <= d <= MAX_DAY,
        r is None ==> calendar_day_num(year as int, month as int, day as int) is None,
{
    match chrono_midnight_secs(year, month, day) {
        Some(s) => {
            proof {
                lemma_day_bounds(s as int);
            }
            Some(civil_day(s))
        },
        None => None,
    }
}

/// The Monday of the week that a day belongs to.
pub fn monday_of_day(day: i64) -> (m: i64)
    requires
        -MAX_DAY <= day <= MAX_DAY,
    ensures
        m == monday_of(day as int),
        m <= day < m + 7,
{
    let w = weekday_of_day(day);
    day - w
}

} // verus!
