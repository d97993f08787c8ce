//! Instants and calendar days.
//!
//! Instants are counted in microseconds from the Unix epoch, days in days from
//! 1970-01-01, both in UTC and in the proleptic Gregorian calendar.

use vstd::prelude::*;

verus! {

/// The first day that `chrono` can represent: January 1 of the year -262143.
pub const FIRST_DAY: i64 = -96_465_292;

/// The last day that `chrono` can represent: December 31 of the year 262142.
pub const LAST_DAY: i64 = 95_026_236;

/// Whether `chrono` can represent the day this many seconds from the epoch.
pub open spec fn representable(secs: int) -> bool {
    FIRST_DAY <= secs / 86_400 <= LAST_DAY
}

/// The day of the instant `secs` seconds and `nanos` nanoseconds after the
/// epoch: `chrono::DateTime::from_timestamp`, then `date_naive` and
/// `NaiveDate::to_epoch_days`. It is the number of whole days, rounded down, and
/// `None` exactly outside the years that `chrono` represents.
#[verifier::external_body]
fn utc_epoch_day(secs: i64, nanos: u32) -> (r: Option<i32>)
    requires
        nanos < 1_000_000_000,
    ensures
        match r {
            Some(day) => representable(secs as int) && day == secs as int / 86_400,
            None => !representable(secs as int),
        },
{
    chrono::DateTime::from_timestamp(secs, nanos).map(|t| t.date_naive().to_epoch_days())
}

/// Microseconds as whole seconds, rounded down, and the nanoseconds left over.
pub fn split_micros(us: i64) -> (r: (i64, u32))
    ensures
        r.0 == us as int / 1_000_000,
        r.1 == (us as int % 1_000_000) * 1_000,
        r.1 < 1_000_000_000,
{
    let q: i64 = us / 1_000_000;
    let m: i64 = us % 1_000_000;
    if m < 0 {
        (q - 1, ((m + 1_000_000) * 1_000) as u32)
    } else {
        (q, (m * 1_000) as u32)
    }
}

/// The day of an instant; instants that `chrono` cannot represent count as the
/// epoch's day.
pub open spec fn day_of(ts_us: i64) -> int {
    if FIRST_DAY <= ts_us as int / 86_400_000_000 <= LAST_DAY {
        ts_us as int / 86_400_000_000
    } else {
        0
    }
}

/// The UTC day of an instant.
pub fn day_of_us(ts_us: i64) -> (r: i32)
    ensures
        r == day_of(ts_us),
{
    let (secs, nanos) = split_micros(ts_us);
    proof {
        assert(ts_us as int / 1_000_000 / 86_400 == ts_us as int / 86_400_000_000);
    }
    match utc_epoch_day(secs, nanos) {
        Some(day) => day,
        None => 0,
    }
}

/// An instant falls on the day that has begun and is not over yet.
pub proof fn law_instants_fall_on_their_day(ts_us: i64, day: int)
    requires
        FIRST_DAY <= day <= LAST_DAY,
        day * (24 * 60 * 60 * 1_000_000) <= ts_us < (day + 1) * (24 * 60 * 60 * 1_000_000),
    ensures
        day_of(ts_us) == day,
{
}

// ---------- text ----------

/// Date and time as a SQL literal holds them.
pub const SQL_FORMAT: &'static str = "%Y-%m-%d %H:%M:%S%.6f";

/// Date and time as ISO 8601 has them, in UTC.
pub const ISO_FORMAT: &'static str = "%Y-%m-%dT%H:%M:%S%.6fZ";

/// A date.
pub const DATE_FORMAT: &'static str = "%Y-%m-%d";

/// The formats that are used. `chrono` accepts each of them.
pub open spec fn is_format(format: Seq<char>) -> bool {
    format == SQL_FORMAT@ || format == ISO_FORMAT@ || format == DATE_FORMAT@
}

/// How `chrono` writes the instant `secs` seconds and `nanos` nanoseconds after
/// the epoch in that format.
pub uninterp spec fn utc_text(secs: i64, nanos: u32, format: Seq<char>) -> Seq<char>;

/// `chrono::DateTime::from_timestamp`, then `format` and `to_string`: the text of
/// an instant, `None` exactly outside the years that `chrono` represents. The
/// text is named, not spelled out.
#[verifier::external_body]
fn utc_format(secs: i64, nanos: u32, format: &str) -> (r: Option<String>)
    requires
        nanos < 1_000_000_000,
        is_format(format@),
    ensures
        match r {
            Some(text) => representable(secs as int) && text@ == utc_text(secs, nanos, format@),
            None => !representable(secs as int),
        },
{
    chrono::DateTime::from_timestamp(secs, nanos).map(|t| t.format(format).to_string())
}

/// The text of an instant in UTC, if it is one that can be written.
pub fn instant_text(secs: i64, nanos: u32, format: &str) -> (r: Option<String>)
    requires
        nanos < 1_000_000_000,
        is_format(format@),
    ensures
        match r {
            Some(text) => representable(secs as int) && text@ == utc_text(secs, nanos, format@),
            None => !representable(secs as int),
        },
{
    utc_format(secs, nanos, format)
}

/// A microsecond timestamp as a SQL literal holds it. One that cannot be written
/// counts as the epoch.
pub open spec fn ts_literal(us: i64) -> Seq<char> {
    if representable(us as int / 1_000_000) {
        utc_text(
            (us as int / 1_000_000) as i64,
            ((us as int % 1_000_000) * 1_000) as u32,
            SQL_FORMAT@,
        )
    } else {
        utc_text(0, 0, SQL_FORMAT@)
    }
}

/// A microsecond timestamp as a SQL literal holds it.
pub fn us_to_ts_lit(us: i64) -> (r: String)
    ensures
        r@ == ts_literal(us),
{
    let (secs, nanos) = split_micros(us);
    match utc_format(secs, nanos, SQL_FORMAT) {
        Some(text) => text,
        None => match utc_format(0, 0, SQL_FORMAT) {
            Some(text) => text,
            None => String::new(),
        },
    }
}

/// The instant, in microseconds after the epoch, that
/// `chrono::DateTime::parse_from_rfc3339` reads from a text, if any.
pub uninterp spec fn rfc3339_micros(s: Seq<char>) -> Option<i64>;

/// `chrono::DateTime::parse_from_rfc3339`, then `timestamp_micros`: the instant
/// that an RFC 3339 text denotes. What texts are accepted is not spelled out.
#[verifier::external_body]
fn read_rfc3339(s: &str) -> (r: Option<i64>)
    ensures
        r == rfc3339_micros(s@),
{
    chrono::DateTime::parse_from_rfc3339(s).ok().map(|t| t.timestamp_micros())
}

/// The instant an RFC 3339 text denotes, in microseconds after the epoch.
pub fn parse_rfc3339_to_us(s: &str) -> (r: Option<i64>)
    ensures
        r == rfc3339_micros(s@),
{
    read_rfc3339(s)
}

} // verus!
