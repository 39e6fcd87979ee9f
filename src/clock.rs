//! Calendar fields of a UTC instant, at the granularity the index uses.
use crate::path::IndexError;
use chrono::{Datelike, Timelike};
use vstd::prelude::*;

verus! {

/// The (year, month, day) of the proleptic Gregorian calendar for a day
/// counted from 1970-01-01 (day 0), as chrono computes it.
pub uninterp spec fn utc_date_of(day: int) -> (int, int, int);

/// The day number (from 1970-01-01) of a Unix timestamp in seconds.
pub open spec fn day_number(secs: int) -> int {
    secs / 86400
}

/// The hour of the day (0 to 23) of a Unix timestamp in seconds.
pub open spec fn hour_of_day(secs: int) -> int {
    (secs % 86400) / 3600
}

/// The timestamps that every calendar of chrono holds: about 253,500 years
/// either side of 1970, inside its range of years -262143 to 262142.
pub open spec fn in_calendar_range(secs: int) -> bool {
    -8_000_000_000_000 <= secs <= 8_000_000_000_000
}

/// Relies on chrono's `DateTime::<Utc>::from_timestamp`, which splits the
/// seconds by Euclidean division into a day number and the seconds since
/// midnight, and returns `None` only when the day lies outside its calendar
/// (years -262143 to 262142), and on its `year`, `month` (1 to 12), `day`
/// (1 to 31) and `hour` getters.
#[verifier::external_body]
fn utc_fields(secs: i64) -> (r: Option<(i32, u32, u32, u32)>)
    ensures
        in_calendar_range(secs as int) ==> r is Some,
        r matches Some(f) ==> {
            &&& (f.0 as int, f.1 as int, f.2 as int) == utc_date_of(day_number(secs as int))
            &&& 1 <= f.1 <= 12
            &&& 1 <= f.2 <= 31
            &&& f.3 as int == hour_of_day(secs as int)
        },
{
    match chrono::DateTime::from_timestamp(secs, 0) {
        Some(t) => Some((t.year(), t.month(), t.day(), t.hour())),
        None => None,
    }
}

/// A UTC instant, truncated to the hour.
#[derive(Clone, Copy, Debug, PartialEq, Eq, Structural)]
pub struct UtcInstant {
    pub year: i32,
    pub month: u32,
    pub day: u32,
    pub hour: u32,
}

impl UtcInstant {
    /// The instant of a Unix timestamp (seconds since 1970-01-01T00:00 UTC),
    /// truncated to its hour, or `ClockUnavailable` when the calendar cannot
    /// hold it.
    pub fn from_timestamp(secs: i64) -> (r: Result<UtcInstant, IndexError>)
        ensures
            in_calendar_range(secs as int) ==> r is Ok,
            r matches Ok(t) ==> {
                &&& (t.year as int, t.month as int, t.day as int) == utc_date_of(
                    day_number(secs as int),
                )
                &&& 1 <= t.month <= 12
                &&& 1 <= t.day <= 31
                &&& t.hour as int == hour_of_day(secs as int)
                &&& t.hour < 24
            },
            r matches Err(e) ==> e == IndexError::ClockUnavailable,
    {
        match utc_fields(secs) {
            Some(f) => Ok(UtcInstant { year: f.0, month: f.1, day: f.2, hour: f.3 }),
            None => Err(IndexError::ClockUnavailable),
        }
    }
}

} // verus!
