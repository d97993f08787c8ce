//! Pure validation. No I/O, no globals: `now_ms` is passed in so that the
//! clock can be pinned.
//!
//! Rejection rules:
//!   - metric and label names match `[a-zA-Z_][a-zA-Z0-9_]*`
//!   - label names starting with `__` are reserved
//!   - value must be finite (NaN and infinities would break rates)
//!   - timestamp must be within `[now - GRACE_PAST_MS, now + GRACE_FUTURE_MS]`
//!
//! Successful validation produces a `ValidatedSample` whose `series_id` is
//! derived deterministically from the metric name and the labels in name
//! order. The shift by one keeps the id in the non-negative `i64` range.

use vstd::prelude::*;
use vstd::string::StringExecFns;
use vstd::utf8::encode_utf8;
use crate::bytes::push_bytes;
use crate::double::{is_finite, is_finite_bits, is_nan, is_nan_bits, is_negative, negative};
use crate::ingest::types::{RawSample, ValidatedSample};
use crate::labels::{in_name_order, lemma_pairs_unique, lookup, Labels, Pairs};
use crate::text::{begins_with, chars_of, push_signed, signed_decimal, starts_with};

verus! {

/// 1 hour. Samples older than this are rejected as out of order.
pub const GRACE_PAST_MS: i64 = 3_600_000;

/// 5 minutes. Allows modest client clock skew without rejecting writes.
pub const GRACE_FUTURE_MS: i64 = 300_000;

/// Why a sample was refused.
#[derive(Debug, PartialEq, Eq)]
pub enum ValidationError {
    EmptyMetricName,
    InvalidMetricName(String),
    InvalidLabelName(String),
    ReservedLabelName(String),
    NonFiniteValue(String),
    TimestampTooOld { ts: i64, now: i64, grace_ms: i64 },
    TimestampTooNew { ts: i64, now: i64, grace_ms: i64 },
}

/// The view of a `ValidationError`.
pub enum Refusal {
    EmptyMetricName,
    InvalidMetricName(Seq<char>),
    InvalidLabelName(Seq<char>),
    ReservedLabelName(Seq<char>),
    NonFiniteValue(Seq<char>),
    TimestampTooOld { ts: i64, now: i64, grace_ms: i64 },
    TimestampTooNew { ts: i64, now: i64, grace_ms: i64 },
}

impl View for ValidationError {
    type V = Refusal;

    open spec fn view(&self) -> Refusal {
        match *self {
            ValidationError::EmptyMetricName => Refusal::EmptyMetricName,
            ValidationError::InvalidMetricName(s) => Refusal::InvalidMetricName(s@),
            ValidationError::InvalidLabelName(s) => Refusal::InvalidLabelName(s@),
            ValidationError::ReservedLabelName(s) => Refusal::ReservedLabelName(s@),
            ValidationError::NonFiniteValue(s) => Refusal::NonFiniteValue(s@),
            ValidationError::TimestampTooOld { ts, now, grace_ms } => Refusal::TimestampTooOld {
                ts,
                now,
                grace_ms,
            },
            ValidationError::TimestampTooNew { ts, now, grace_ms } => Refusal::TimestampTooNew {
                ts,
                now,
                grace_ms,
            },
        }
    }
}

/// The sentence that tells a client why its sample was refused.
pub open spec fn refusal_text(e: Refusal) -> Seq<char> {
    match e {
        Refusal::EmptyMetricName => "metric name is empty"@,
        Refusal::InvalidMetricName(s) => "metric name '"@ + s
            + "' contains invalid characters (must match [a-zA-Z_][a-zA-Z0-9_]*)"@,
        Refusal::InvalidLabelName(s) => "label name '"@ + s
            + "' is invalid (must match [a-zA-Z_][a-zA-Z0-9_]*)"@,
        Refusal::ReservedLabelName(s) => "label name '"@ + s + "' is reserved (starts with '__')"@,
        Refusal::NonFiniteValue(s) => "value is not finite: "@ + s,
        Refusal::TimestampTooOld { ts, now, grace_ms } => "timestamp "@ + signed_decimal(ts as int)
            + " ms is too old: now="@ + signed_decimal(now as int) + " ms, grace="@
            + signed_decimal(grace_ms as int) + " ms"@,
        Refusal::TimestampTooNew { ts, now, grace_ms } => "timestamp "@ + signed_decimal(ts as int)
            + " ms is in the future: now="@ + signed_decimal(now as int) + " ms, grace="@
            + signed_decimal(grace_ms as int) + " ms"@,
    }
}

fn quoted(head: &str, name: &str, tail: &str) -> (r: String)
    ensures
        r@ == head@ + name@ + tail@,
{
    let mut r = head.to_string();
    r.append(name);
    r.append(tail);
    r
}

fn clock_text(ts: i64, what: &str, now: i64, grace_ms: i64) -> (r: String)
    ensures
        r@ == "timestamp "@ + signed_decimal(ts as int) + what@ + signed_decimal(now as int)
            + " ms, grace="@ + signed_decimal(grace_ms as int) + " ms"@,
{
    let mut r = "timestamp ".to_string();
    push_signed(&mut r, ts);
    r.append(what);
    push_signed(&mut r, now);
    r.append(" ms, grace=");
    push_signed(&mut r, grace_ms);
    r.append(" ms");
    r
}

impl ValidationError {
    /// The sentence that tells a client why its sample was refused.
    pub fn message(&self) -> (r: String)
        ensures
            r@ == refusal_text(self@),
    {
        match self {
            ValidationError::EmptyMetricName => "metric name is empty".to_string(),
            ValidationError::InvalidMetricName(s) => quoted(
                "metric name '",
                s.as_str(),
                "' contains invalid characters (must match [a-zA-Z_][a-zA-Z0-9_]*)",
            ),
            ValidationError::InvalidLabelName(s) => quoted(
                "label name '",
                s.as_str(),
                "' is invalid (must match [a-zA-Z_][a-zA-Z0-9_]*)",
            ),
            ValidationError::ReservedLabelName(s) => quoted(
                "label name '",
                s.as_str(),
                "' is reserved (starts with '__')",
            ),
            ValidationError::NonFiniteValue(s) => {
                let mut r = "value is not finite: ".to_string();
                r.append(s.as_str());
                r
            },
            ValidationError::TimestampTooOld { ts, now, grace_ms } => clock_text(
                *ts,
                " ms is too old: now=",
                *now,
                *grace_ms,
            ),
            ValidationError::TimestampTooNew { ts, now, grace_ms } => clock_text(
                *ts,
                " ms is in the future: now=",
                *now,
                *grace_ms,
            ),
        }
    }
}

// ---------- the rules ----------

/// `[a-zA-Z_]`
pub open spec fn name_start(c: char) -> bool {
    ('a' <= c <= 'z') || ('A' <= c <= 'Z') || c == '_'
}

/// `[a-zA-Z0-9_]`
pub open spec fn name_part(c: char) -> bool {
    name_start(c) || ('0' <= c <= '9')
}

/// `[a-zA-Z_][a-zA-Z0-9_]*`
pub open spec fn valid_name(s: Seq<char>) -> bool {
    &&& s.len() > 0
    &&& name_start(s[0])
    &&& forall|i: int| 0 <= i < s.len() ==> name_part(#[trigger] s[i])
}

/// The first label, in the order given, that breaks a rule, and the rule it
/// breaks: reserved names are refused before malformed ones.
pub open spec fn first_bad_label(labels: Pairs) -> Option<Refusal>
    decreases labels.len(),
{
    if labels.len() == 0 {
        None
    } else if begins_with(labels[0].0, "__"@) {
        Some(Refusal::ReservedLabelName(labels[0].0))
    } else if !valid_name(labels[0].0) {
        Some(Refusal::InvalidLabelName(labels[0].0))
    } else {
        first_bad_label(labels.skip(1))
    }
}

/// How a value that is not finite is named.
pub open spec fn non_finite_name(value: u64) -> Seq<char> {
    if is_nan_bits(value) {
        "NaN"@
    } else if !negative(value) {
        "Infinity"@
    } else {
        "-Infinity"@
    }
}

/// Why a sample is refused, if it is.
pub open spec fn refusal(
    metric: Seq<char>,
    labels: Pairs,
    ts: i64,
    value: u64,
    now: i64,
) -> Option<Refusal> {
    if metric.len() == 0 {
        Some(Refusal::EmptyMetricName)
    } else if !valid_name(metric) {
        Some(Refusal::InvalidMetricName(metric))
    } else if first_bad_label(labels) is Some {
        first_bad_label(labels)
    } else if !is_finite_bits(value) {
        Some(Refusal::NonFiniteValue(non_finite_name(value)))
    } else if ts < now - GRACE_PAST_MS {
        Some(Refusal::TimestampTooOld { ts, now, grace_ms: GRACE_PAST_MS })
    } else if ts > now + GRACE_FUTURE_MS {
        Some(Refusal::TimestampTooNew { ts, now, grace_ms: GRACE_FUTURE_MS })
    } else {
        None
    }
}

/// Milliseconds as microseconds, held to the range of `i64`.
pub open spec fn ms_to_us(ts: int) -> int {
    if ts * 1000 > i64::MAX {
        i64::MAX as int
    } else if ts * 1000 < i64::MIN {
        i64::MIN as int
    } else {
        ts * 1000
    }
}

/// Whether a name matches `[a-zA-Z_][a-zA-Z0-9_]*`.
pub fn is_valid_name(name: &str) -> (r: bool)
    ensures
        r == valid_name(name@),
{
    let chars = chars_of(name);
    if chars.len() == 0 {
        return false;
    }
    let c0 = chars[0];
    if !(('a' <= c0 && c0 <= 'z') || ('A' <= c0 && c0 <= 'Z') || c0 == '_') {
        return false;
    }
    let mut i: usize = 0;
    while i < chars.len()
        invariant
            chars@ == name@,
            i <= chars@.len(),
            forall|j: int| 0 <= j < i ==> name_part(#[trigger] chars@[j]),
        decreases chars@.len() - i,
    {
        let c = chars[i];
        if !(('a' <= c && c <= 'z') || ('A' <= c && c <= 'Z') || c == '_' || ('0' <= c && c
            <= '9')) {
            return false;
        }
        i += 1;
    }
    true
}

fn check_labels(labels: &Labels) -> (r: Option<ValidationError>)
    ensures
        r is Some == first_bad_label(labels@) is Some,
        r is Some ==> first_bad_label(labels@) == Some(r->0@),
{
    let n: usize = labels.len();
    let mut i: usize = 0;
    assert(labels@.skip(0) =~= labels@);
    while i < n
        invariant
            n == labels@.len(),
            i <= n,
            first_bad_label(labels@) == first_bad_label(labels@.skip(i as int)),
        decreases n - i,
    {
        let name = labels.name_at(i);
        assert(labels@.skip(i as int)[0] == labels@[i as int]);
        assert(labels@.skip(i as int).skip(1) =~= labels@.skip(i as int + 1));
        if starts_with(name.as_str(), "__") {
            return Some(ValidationError::ReservedLabelName(name.clone()));
        }
        if !is_valid_name(name.as_str()) {
            return Some(ValidationError::InvalidLabelName(name.clone()));
        }
        i += 1;
    }
    None
}

// ---------- series identity ----------

/// What `xxhash_rust::xxh3::xxh3_64` returns for these bytes.
pub uninterp spec fn xxh3_64_of(bytes: Seq<u8>) -> u64;

/// `xxhash_rust::xxh3::xxh3_64`: the 64-bit XXH3 hash of the bytes, with the
/// default secret and no seed. The hash is named, not spelled out.
#[verifier::external_body]
fn xxh3_64(bytes: &[u8]) -> (r: u64)
    ensures
        r == xxh3_64_of(bytes@),
{
    xxhash_rust::xxh3::xxh3_64(bytes)
}

/// `k=v\0` for each label, one after another.
pub open spec fn label_bytes(labels: Pairs) -> Seq<u8>
    decreases labels.len(),
{
    if labels.len() == 0 {
        Seq::empty()
    } else {
        label_bytes(labels.drop_last()) + encode_utf8(labels.last().0) + seq![61u8] + encode_utf8(
            labels.last().1,
        ) + seq![0u8]
    }
}

/// The bytes that identify a series: `metric\0`, then `k=v\0` for each label.
pub open spec fn series_bytes(metric: Seq<char>, labels: Pairs) -> Seq<u8> {
    encode_utf8(metric) + seq![0u8] + label_bytes(labels)
}

/// A series' id: the hash of its identifying bytes, halved.
pub open spec fn series_id_of(metric: Seq<char>, labels: Pairs) -> i64 {
    (xxh3_64_of(series_bytes(metric, labels)) / 2) as i64
}

/// `xxh3_64(metric + 0x00 + (k=v\0)*) >> 1`, as an `i64`.
///
/// The shift keeps the id non-negative, and the cast of its result loses
/// nothing.
pub fn derive_series_id(metric: &str, labels: &Labels) -> (r: i64)
    ensures
        r == series_id_of(metric@, labels@),
        r >= 0,
{
    let mut buf: Vec<u8> = Vec::new();
    push_bytes(&mut buf, metric.as_bytes());
    buf.push(0);
    let ghost head = encode_utf8(metric@) + seq![0u8];
    assert(buf@ =~= head + label_bytes(labels@.take(0)));
    let n: usize = labels.len();
    let mut i: usize = 0;
    while i < n
        invariant
            n == labels@.len(),
            i <= n,
            head == encode_utf8(metric@) + seq![0u8],
            buf@ == head + label_bytes(labels@.take(i as int)),
        decreases n - i,
    {
        let ghost before = buf@;
        push_bytes(&mut buf, labels.name_at(i).as_str().as_bytes());
        buf.push(61);
        push_bytes(&mut buf, labels.value_at(i).as_str().as_bytes());
        buf.push(0);
        i += 1;
        proof {
            let t = labels@.take(i as int);
            assert(t.drop_last() =~= labels@.take(i as int - 1));
            assert(buf@ =~= head + label_bytes(t));
        }
    }
    assert(labels@.take(n as int) =~= labels@);
    assert(buf@ =~= series_bytes(metric@, labels@));
    let h: u64 = xxh3_64(buf.as_slice());
    assert(h >> 1 == h / 2) by (bit_vector);
    assert(h / 2 <= 0x7FFF_FFFF_FFFF_FFFF);
    (h >> 1) as i64
}

fn times_thousand(ts: i64) -> (r: i64)
    ensures
        r == ms_to_us(ts as int),
{
    match ts.checked_mul(1_000) {
        Some(v) => v,
        None => if ts < 0 {
            i64::MIN
        } else {
            i64::MAX
        },
    }
}

/// Check a sample against the rules. A sample that clears them comes back with
/// its series id, its labels in name order and its timestamp in microseconds.
pub fn validate(raw: RawSample, now_ms: i64) -> (r: Result<ValidatedSample, ValidationError>)
    requires
        i64::MIN + GRACE_PAST_MS <= now_ms <= i64::MAX - GRACE_FUTURE_MS,
    ensures
        match r {
            Ok(s) => {
                &&& refusal(raw.metric@, raw.labels@, raw.ts, raw.value, now_ms) is None
                &&& s.series_id == series_id_of(raw.metric@, raw.labels@)
                &&& s.metric@ == raw.metric@
                &&& s.labels@ == raw.labels@
                &&& s.ts_us == ms_to_us(raw.ts as int)
                &&& s.value == raw.value
            },
            Err(e) => refusal(raw.metric@, raw.labels@, raw.ts, raw.value, now_ms) == Some(e@),
        },
{
    if raw.metric.as_str().is_empty() {
        return Err(ValidationError::EmptyMetricName);
    }
    if !is_valid_name(raw.metric.as_str()) {
        return Err(ValidationError::InvalidMetricName(raw.metric));
    }
    if let Some(e) = check_labels(&raw.labels) {
        return Err(e);
    }
    if !is_finite(raw.value) {
        let s = if is_nan(raw.value) {
            "NaN".to_string()
        } else if !is_negative(raw.value) {
            "Infinity".to_string()
        } else {
            "-Infinity".to_string()
        };
        return Err(ValidationError::NonFiniteValue(s));
    }
    let lo: i64 = now_ms - GRACE_PAST_MS;
    let hi: i64 = now_ms + GRACE_FUTURE_MS;
    if raw.ts < lo {
        return Err(
            ValidationError::TimestampTooOld { ts: raw.ts, now: now_ms, grace_ms: GRACE_PAST_MS },
        );
    }
    if raw.ts > hi {
        return Err(
            ValidationError::TimestampTooNew { ts: raw.ts, now: now_ms, grace_ms: GRACE_FUTURE_MS },
        );
    }
    let series_id: i64 = derive_series_id(raw.metric.as_str(), &raw.labels);
    let ts_us: i64 = times_thousand(raw.ts);
    Ok(
        ValidatedSample {
            series_id,
            metric: raw.metric,
            labels: raw.labels,
            ts_us,
            value: raw.value,
        },
    )
}

// ---------- laws ----------

/// The id of a series does not depend on the order in which its labels were
/// given: two label lists that agree on every name give the same id.
pub proof fn law_series_id_ignores_label_order(metric: Seq<char>, a: Pairs, b: Pairs)
    requires
        in_name_order(a),
        in_name_order(b),
        forall|n: Seq<char>| #[trigger] lookup(a, n) == lookup(b, n),
    ensures
        series_id_of(metric, a) == series_id_of(metric, b),
{
    lemma_pairs_unique(a, b);
}

} // verus!
