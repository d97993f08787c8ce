//! Timestamps, durations, and what a query asks for.

use vstd::prelude::*;
use vstd::string::StringExecFns;
use crate::calendar::{parse_rfc3339_to_us, rfc3339_micros};
use crate::double::{is_infinite, is_infinite_bits, is_nan, is_nan_bits, negative, SIGN};
use crate::prometheus::ast::{expression, opt_text, parse, ExprView, QueryExpr};
use crate::prometheus::error::{bad_data, ErrorView, PromError};
use crate::prometheus::histogram::NumberReader;
use crate::prometheus::numbers::{Arithmetic, MILLION};
use crate::prometheus::plan::{whole_of, whole_part, BinOp};
use crate::text::{chars_of, string_of, trim, trimmed};

verus! {

/// The bits of the microseconds in a minute.
pub const MINUTE_US: u64 = 0x418C_9C38_0000_0000;

/// The bits of the microseconds in an hour.
pub const HOUR_US: u64 = 0x41EA_D274_8000_0000;

/// The bits of the microseconds in a day.
pub const DAY_US: u64 = 0x4234_1DD7_6000_0000;

/// The number without its sign.
pub open spec fn unsigned_bits(bits: u64) -> u64 {
    if negative(bits) {
        (bits - SIGN) as u64
    } else {
        bits
    }
}

/// The whole part of a number, cut to what 64 bits hold; 0 for NaN.
pub open spec fn as_integer(bits: u64) -> i64 {
    let size = unsigned_bits(bits);
    if is_nan_bits(bits) {
        0
    } else if is_infinite_bits(bits) || whole_part(size) > i64::MAX {
        if negative(bits) {
            i64::MIN
        } else {
            i64::MAX
        }
    } else if negative(bits) {
        (-(whole_part(size) as int)) as i64
    } else {
        whole_part(size) as i64
    }
}

/// The whole part of a number, cut to what 64 bits hold; 0 for NaN.
pub fn to_integer(bits: u64) -> (r: i64)
    ensures
        r == as_integer(bits),
{
    if is_nan(bits) {
        return 0;
    }
    let below: bool = bits >= SIGN;
    let size: u64 = if below {
        bits - SIGN
    } else {
        bits
    };
    let limit: i64 = if below {
        i64::MIN
    } else {
        i64::MAX
    };
    if is_infinite(bits) {
        return limit;
    }
    match whole_of(size) {
        Some(w) => if w > i64::MAX as u64 {
            limit
        } else if below {
            -(w as i64)
        } else {
            w as i64
        },
        None => limit,
    }
}

/// A number of units in microseconds.
pub open spec fn micros<C: Fn(BinOp, u64, u64) -> u64, W: Fn(i128) -> u64>(
    ar: Arithmetic<C, W>,
    n: u64,
    unit: u64,
) -> i64 {
    as_integer(ar.result(BinOp::Mul, n, unit))
}

fn to_micros<C: Fn(BinOp, u64, u64) -> u64, W: Fn(i128) -> u64>(
    ar: &Arithmetic<C, W>,
    n: u64,
    unit: u64,
) -> (r: i64)
    requires
        ar.wf(),
    ensures
        r == micros(*ar, n, unit),
{
    to_integer(ar.apply(BinOp::Mul, n, unit))
}

/// The instant that a text denotes, in microseconds: seconds as a number, else
/// RFC 3339.
pub open spec fn timestamp_of<
    C: Fn(BinOp, u64, u64) -> u64,
    W: Fn(i128) -> u64,
    R: Fn(&str) -> Option<u64>,
>(ar: Arithmetic<C, W>, reader: NumberReader<R>, s: Seq<char>) -> Result<i64, ErrorView> {
    match reader.number(s) {
        Some(secs) => Ok(micros(ar, secs, MILLION)),
        None => match rfc3339_micros(s) {
            Some(us) => Ok(us),
            None => Err(bad_data("invalid timestamp: "@ + s)),
        },
    }
}

/// A result with its error as a view.
pub open spec fn outcome_view<T>(r: Result<T, PromError>) -> Result<T, ErrorView> {
    match r {
        Ok(v) => Ok(v),
        Err(e) => Err(e@),
    }
}

/// The instant that a text denotes, in microseconds.
pub fn parse_timestamp<
    C: Fn(BinOp, u64, u64) -> u64,
    W: Fn(i128) -> u64,
    R: Fn(&str) -> Option<u64>,
>(ar: &Arithmetic<C, W>, reader: &NumberReader<R>, s: &str) -> (r: Result<i64, PromError>)
    requires
        ar.wf(),
        reader.wf(),
    ensures
        outcome_view(r) == timestamp_of(*ar, *reader, s@),
{
    if let Some(secs) = reader.parse(s) {
        return Ok(to_micros(ar, secs, MILLION));
    }
    if let Some(us) = parse_rfc3339_to_us(s) {
        return Ok(us);
    }
    let mut message = "invalid timestamp: ".to_string();
    message.append(s);
    Err(PromError::bad_data(message))
}

/// The microseconds in a duration's unit.
pub open spec fn unit_us(unit: char) -> Option<u64> {
    if unit == 's' {
        Some(MILLION)
    } else if unit == 'm' {
        Some(MINUTE_US)
    } else if unit == 'h' {
        Some(HOUR_US)
    } else if unit == 'd' {
        Some(DAY_US)
    } else {
        None
    }
}

/// The length of a duration, in microseconds: seconds as a number, else a number
/// and a unit, with white space around it.
pub open spec fn duration_of<
    C: Fn(BinOp, u64, u64) -> u64,
    W: Fn(i128) -> u64,
    R: Fn(&str) -> Option<u64>,
>(ar: Arithmetic<C, W>, reader: NumberReader<R>, s: Seq<char>) -> Result<i64, ErrorView> {
    match reader.number(s) {
        Some(secs) => Ok(micros(ar, secs, MILLION)),
        None => {
            let t = trimmed(s);
            if t.len() == 0 {
                Err(bad_data("empty duration"@))
            } else {
                match reader.number(t.drop_last()) {
                    None => Err(bad_data("invalid duration: "@ + t)),
                    Some(n) => match unit_us(t.last()) {
                        None => Err(bad_data("invalid duration unit: "@ + t)),
                        Some(unit) => Ok(micros(ar, n, unit)),
                    },
                }
            }
        },
    }
}

/// The length of a duration, in microseconds.
pub fn parse_duration_us<
    C: Fn(BinOp, u64, u64) -> u64,
    W: Fn(i128) -> u64,
    R: Fn(&str) -> Option<u64>,
>(ar: &Arithmetic<C, W>, reader: &NumberReader<R>, s: &str) -> (r: Result<i64, PromError>)
    requires
        ar.wf(),
        reader.wf(),
    ensures
        outcome_view(r) == duration_of(*ar, *reader, s@),
{
    if let Some(secs) = reader.parse(s) {
        return Ok(to_micros(ar, secs, MILLION));
    }
    let t = trim(s);
    let chars = chars_of(t.as_str());
    let len: usize = chars.len();
    if len == 0 {
        return Err(PromError::bad_data("empty duration".to_string()));
    }
    let number = string_of(&chars, 0, len - 1);
    proof {
        assert(number@ =~= t@.drop_last());
    }
    let n: u64 = match reader.parse(number.as_str()) {
        Some(n) => n,
        None => {
            let mut message = "invalid duration: ".to_string();
            message.append(t.as_str());
            return Err(PromError::bad_data(message));
        },
    };
    let unit: char = chars[len - 1];
    let scale: u64 = if unit == 's' {
        MILLION
    } else if unit == 'm' {
        MINUTE_US
    } else if unit == 'h' {
        HOUR_US
    } else if unit == 'd' {
        DAY_US
    } else {
        let mut message = "invalid duration unit: ".to_string();
        message.append(t.as_str());
        return Err(PromError::bad_data(message));
    };
    Ok(to_micros(ar, n, scale))
}

// ---------- requests ----------

/// What an instant query is asked with.
#[derive(Debug)]
pub struct QueryParams {
    pub query: String,
    pub time: Option<String>,
}

/// What a range query is asked with.
#[derive(Debug)]
pub struct QueryRangeParams {
    pub query: String,
    pub start: String,
    pub end: String,
    pub step: String,
}

/// An instant query, read.
#[derive(Debug)]
pub struct InstantRequest {
    pub expr: QueryExpr,
    pub time_us: i64,
}

/// A range query, read.
#[derive(Debug)]
pub struct RangeRequest {
    pub expr: QueryExpr,
    pub start_us: i64,
    pub end_us: i64,
    pub step_us: i64,
}

/// An instant query's time and expression. The time is the present where none is
/// asked for.
pub open spec fn instant_request<
    C: Fn(BinOp, u64, u64) -> u64,
    W: Fn(i128) -> u64,
    R: Fn(&str) -> Option<u64>,
>(
    ar: Arithmetic<C, W>,
    reader: NumberReader<R>,
    query: Seq<char>,
    time: Option<Seq<char>>,
    now_us: i64,
) -> Result<(i64, ExprView), ErrorView> {
    let at = match time {
        Some(t) => timestamp_of(ar, reader, t),
        None => Ok(now_us),
    };
    match at {
        Err(e) => Err(e),
        Ok(us) => match expression(query) {
            Err(e) => Err(e),
            Ok(x) => Ok((us, x)),
        },
    }
}

/// Read an instant query.
pub fn read_instant<
    C: Fn(BinOp, u64, u64) -> u64,
    W: Fn(i128) -> u64,
    R: Fn(&str) -> Option<u64>,
>(
    ar: &Arithmetic<C, W>,
    reader: &NumberReader<R>,
    p: &QueryParams,
    now_us: i64,
) -> (r: Result<InstantRequest, PromError>)
    requires
        ar.wf(),
        reader.wf(),
    ensures
        match r {
            Ok(q) => instant_request(
                *ar,
                *reader,
                p.query@,
                opt_text(p.time),
                now_us,
            ) == Ok::<(i64, ExprView), ErrorView>((q.time_us, q.expr.view())),
            Err(e) => instant_request(
                *ar,
                *reader,
                p.query@,
                opt_text(p.time),
                now_us,
            ) == Err::<(i64, ExprView), ErrorView>(e@),
        },
{
    let time_us: i64 = match &p.time {
        Some(t) => match parse_timestamp(ar, reader, t.as_str()) {
            Ok(us) => us,
            Err(e) => {
                return Err(e);
            },
        },
        None => now_us,
    };
    match parse(p.query.as_str()) {
        Ok(expr) => Ok(InstantRequest { expr, time_us }),
        Err(e) => Err(e),
    }
}

/// A range query's start, end, step and expression.
pub open spec fn range_request<
    C: Fn(BinOp, u64, u64) -> u64,
    W: Fn(i128) -> u64,
    R: Fn(&str) -> Option<u64>,
>(
    ar: Arithmetic<C, W>,
    reader: NumberReader<R>,
    query: Seq<char>,
    start: Seq<char>,
    end: Seq<char>,
    step: Seq<char>,
) -> Result<(i64, i64, i64, ExprView), ErrorView> {
    match timestamp_of(ar, reader, start) {
        Err(e) => Err(e),
        Ok(s) => match timestamp_of(ar, reader, end) {
            Err(e) => Err(e),
            Ok(t) => match duration_of(ar, reader, step) {
                Err(e) => Err(e),
                Ok(d) => if d <= 0 {
                    Err(bad_data("step must be positive"@))
                } else {
                    match expression(query) {
                        Err(e) => Err(e),
                        Ok(x) => Ok((s, t, d, x)),
                    }
                },
            },
        },
    }
}

/// Read a range query. Its step is positive.
pub fn read_range<C: Fn(BinOp, u64, u64) -> u64, W: Fn(i128) -> u64, R: Fn(&str) -> Option<u64>>(
    ar: &Arithmetic<C, W>,
    reader: &NumberReader<R>,
    p: &QueryRangeParams,
) -> (r: Result<RangeRequest, PromError>)
    requires
        ar.wf(),
        reader.wf(),
    ensures
        match r {
            Ok(q) => q.step_us > 0 && range_request(
                *ar,
                *reader,
                p.query@,
                p.start@,
                p.end@,
                p.step@,
            ) == Ok::<(i64, i64, i64, ExprView), ErrorView>(
                (q.start_us, q.end_us, q.step_us, q.expr.view()),
            ),
            Err(e) => range_request(*ar, *reader, p.query@, p.start@, p.end@, p.step@) == Err::<
                (i64, i64, i64, ExprView),
                ErrorView,
            >(e@),
        },
{
    let start_us: i64 = match parse_timestamp(ar, reader, p.start.as_str()) {
        Ok(us) => us,
        Err(e) => {
            return Err(e);
        },
    };
    let end_us: i64 = match parse_timestamp(ar, reader, p.end.as_str()) {
        Ok(us) => us,
        Err(e) => {
            return Err(e);
        },
    };
    let step_us: i64 = match parse_duration_us(ar, reader, p.step.as_str()) {
        Ok(us) => us,
        Err(e) => {
            return Err(e);
        },
    };
    if step_us <= 0 {
        return Err(PromError::bad_data("step must be positive".to_string()));
    }
    match parse(p.query.as_str()) {
        Ok(expr) => Ok(RangeRequest { expr, start_us, end_us, step_us }),
        Err(e) => Err(e),
    }
}

} // verus!
