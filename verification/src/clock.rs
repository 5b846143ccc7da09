//! Calendar fields of UNIX time stamps, from `chrono`, and `String` growth.

use vstd::prelude::*;
use chrono::{Datelike, TimeZone, Timelike, Utc};

verus! {

/// The UTC calendar fields `(year, month, day, hour, minute)` of the second
/// `secs` after the UNIX epoch, as `chrono` computes them, or `None` where
/// `chrono` has no date for it.
pub uninterp spec fn utc_fields(secs: i64) -> Option<(i32, u32, u32, u32, u32)>;

/// Calls `TimeZone::timestamp_opt` on `Utc` with `secs` seconds and no
/// nanoseconds, and reads `year`, `month`, `day`, `hour` and `minute` of the
/// result. Claimed of chrono: the result is a function of `secs`
/// (`utc_fields`); the fields are in the ranges that chrono documents
/// (month 1 to 12, day 1 to 31, hour 0 to 23, minute 0 to 59); and every
/// second from the epoch to the end of the year 9999 has a date (chrono's
/// range reaches year 262143).
#[verifier::external_body]
pub(crate) fn utc_calendar_fields(secs: i64) -> (r: Option<(i32, u32, u32, u32, u32)>)
    ensures
        r == utc_fields(secs),
        r matches Some(f) ==> 1 <= f.1 <= 12 && 1 <= f.2 <= 31 && f.3 <= 23 && f.4 <= 59,
        0 <= secs <= 253_402_300_799 ==> r is Some,
{
    match Utc.timestamp_opt(secs, 0).single() {
        Some(dt) => Some((dt.year(), dt.month(), dt.day(), dt.hour(), dt.minute())),
        None => None,
    }
}

/// Calls `String::push`, which appends `c` to `s`.
#[verifier::external_body]
pub(crate) fn push_char(s: &mut String, c: char)
    ensures
        final(s)@ == old(s)@.push(c),
{
    s.push(c);
}

} // verus!
