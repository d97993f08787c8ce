use skaldberg::ingest::types::RawSample;
use skaldberg::ingest::validate::{
    derive_series_id, validate, ValidationError, GRACE_FUTURE_MS, GRACE_PAST_MS,
};
use skaldberg::labels::Labels;

const NOW: i64 = 1_714_800_000_000; // arbitrary fixed instant

fn labels(pairs: &[(&str, &str)]) -> Labels {
    let mut l = Labels::new();
    for (k, v) in pairs {
        l.insert((*k).to_string(), (*v).to_string());
    }
    l
}

fn raw(metric: &str, pairs: &[(&str, &str)], ts: i64, value: f64) -> RawSample {
    RawSample {
        metric: metric.into(),
        labels: labels(pairs),
        ts,
        value: value.to_bits(),
    }
}

#[test]
fn ok_basic() {
    let r = raw("http_requests_total", &[("job", "api"), ("status", "200")], NOW, 42.0);
    let v = validate(r, NOW).unwrap();
    assert_eq!(v.metric, "http_requests_total");
    assert_eq!(v.labels.len(), 2);
    assert_eq!(v.ts_us, NOW * 1_000);
    assert_eq!(f64::from_bits(v.value), 42.0);
    assert!(v.series_id >= 0);
}

#[test]
fn series_id_is_label_order_invariant() {
    let r1 = raw("m", &[("a", "1"), ("b", "2"), ("c", "3")], NOW, 1.0);
    let r2 = raw("m", &[("c", "3"), ("a", "1"), ("b", "2")], NOW, 1.0);
    assert_eq!(validate(r1, NOW).unwrap().series_id, validate(r2, NOW).unwrap().series_id);
}

#[test]
fn series_id_distinguishes_metric_name() {
    let v1 = validate(raw("m1", &[("a", "1")], NOW, 1.0), NOW).unwrap();
    let v2 = validate(raw("m2", &[("a", "1")], NOW, 1.0), NOW).unwrap();
    assert_ne!(v1.series_id, v2.series_id);
}

#[test]
fn series_id_distinguishes_label_value() {
    let v1 = validate(raw("m", &[("a", "1")], NOW, 1.0), NOW).unwrap();
    let v2 = validate(raw("m", &[("a", "2")], NOW, 1.0), NOW).unwrap();
    assert_ne!(v1.series_id, v2.series_id);
}

#[test]
fn series_id_distinguishes_label_name() {
    let v1 = validate(raw("m", &[("a", "1")], NOW, 1.0), NOW).unwrap();
    let v2 = validate(raw("m", &[("b", "1")], NOW, 1.0), NOW).unwrap();
    assert_ne!(v1.series_id, v2.series_id);
}

#[test]
fn series_id_is_non_negative_for_random_inputs() {
    for i in 0..2000 {
        let m = format!("m{}", i);
        let v = validate(raw(&m, &[], NOW, 1.0), NOW).unwrap();
        assert!(v.series_id >= 0, "negative id for {}: {}", m, v.series_id);
    }
}

#[test]
fn rejects_empty_metric() {
    let r = raw("", &[], NOW, 1.0);
    assert_eq!(validate(r, NOW).unwrap_err(), ValidationError::EmptyMetricName);
}

#[test]
fn rejects_invalid_metric_chars() {
    for bad in ["foo bar", "1foo", "foo-bar", "foo.bar", "foo:bar", "日本語"] {
        let r = raw(bad, &[], NOW, 1.0);
        match validate(r, NOW) {
            Err(ValidationError::InvalidMetricName(_)) => {}
            other => panic!("expected InvalidMetricName for {:?}, got {:?}", bad, other),
        }
    }
}

#[test]
fn rejects_invalid_label_name() {
    let r = raw("m", &[("bad name", "v")], NOW, 1.0);
    assert!(matches!(
        validate(r, NOW),
        Err(ValidationError::InvalidLabelName(_))
    ));
}

#[test]
fn rejects_reserved_label_name() {
    let r = raw("m", &[("__name__", "v")], NOW, 1.0);
    assert!(matches!(
        validate(r, NOW),
        Err(ValidationError::ReservedLabelName(_))
    ));
}

#[test]
fn rejects_nan() {
    let r = raw("m", &[], NOW, f64::NAN);
    assert_eq!(
        validate(r, NOW).unwrap_err(),
        ValidationError::NonFiniteValue("NaN".into())
    );
}

#[test]
fn rejects_pos_inf() {
    let r = raw("m", &[], NOW, f64::INFINITY);
    assert_eq!(
        validate(r, NOW).unwrap_err(),
        ValidationError::NonFiniteValue("Infinity".into())
    );
}

#[test]
fn rejects_neg_inf() {
    let r = raw("m", &[], NOW, f64::NEG_INFINITY);
    assert_eq!(
        validate(r, NOW).unwrap_err(),
        ValidationError::NonFiniteValue("-Infinity".into())
    );
}

#[test]
fn rejects_too_old_timestamp() {
    let r = raw("m", &[], NOW - GRACE_PAST_MS - 1, 1.0);
    assert!(matches!(
        validate(r, NOW),
        Err(ValidationError::TimestampTooOld { .. })
    ));
}

#[test]
fn rejects_too_new_timestamp() {
    let r = raw("m", &[], NOW + GRACE_FUTURE_MS + 1, 1.0);
    assert!(matches!(
        validate(r, NOW),
        Err(ValidationError::TimestampTooNew { .. })
    ));
}

#[test]
fn accepts_at_grace_boundaries() {
    let r = raw("m", &[], NOW - GRACE_PAST_MS, 1.0);
    assert!(validate(r, NOW).is_ok());
    let r = raw("m", &[], NOW + GRACE_FUTURE_MS, 1.0);
    assert!(validate(r, NOW).is_ok());
}

#[test]
fn accepts_underscore_first() {
    let r = raw("_foo", &[("_bar", "v")], NOW, 1.0);
    assert!(validate(r, NOW).is_ok());
}

#[test]
fn accepts_no_labels() {
    let r = raw("m", &[], NOW, 1.0);
    let v = validate(r, NOW).unwrap();
    assert_eq!(v.labels.len(), 0);
    assert!(v.series_id >= 0);
}

#[test]
fn ts_ms_to_us_conversion() {
    let r = raw("m", &[], 1_000, 1.0);
    // Need a `now_ms` close enough to 1_000 to pass grace; just override.
    let v = validate(r, 1_000).unwrap();
    assert_eq!(v.ts_us, 1_000_000);
}

#[test]
fn series_id_is_the_shifted_hash_of_name_and_labels() {
    let mut bytes: Vec<u8> = Vec::new();
    bytes.extend_from_slice(b"m\0a=1\0b=2\0");
    let want = (xxhash_rust::xxh3::xxh3_64(&bytes) >> 1) as i64;
    assert_eq!(derive_series_id("m", &labels(&[("b", "2"), ("a", "1")])), want);
}

#[test]
fn validation_messages() {
    assert_eq!(ValidationError::EmptyMetricName.message(), "metric name is empty");
    assert_eq!(
        ValidationError::InvalidMetricName("a b".into()).message(),
        "metric name 'a b' contains invalid characters (must match [a-zA-Z_][a-zA-Z0-9_]*)"
    );
    assert_eq!(
        ValidationError::InvalidLabelName("a b".into()).message(),
        "label name 'a b' is invalid (must match [a-zA-Z_][a-zA-Z0-9_]*)"
    );
    assert_eq!(
        ValidationError::ReservedLabelName("__x".into()).message(),
        "label name '__x' is reserved (starts with '__')"
    );
    assert_eq!(
        ValidationError::NonFiniteValue("NaN".into()).message(),
        "value is not finite: NaN"
    );
    assert_eq!(
        ValidationError::TimestampTooOld { ts: -1, now: 20, grace_ms: 3 }.message(),
        "timestamp -1 ms is too old: now=20 ms, grace=3 ms"
    );
    assert_eq!(
        ValidationError::TimestampTooNew { ts: 100, now: 20, grace_ms: 3 }.message(),
        "timestamp 100 ms is in the future: now=20 ms, grace=3 ms"
    );
}

#[test]
fn labels_are_a_map_in_name_order() {
    let mut l = labels(&[("b", "2"), ("a", "1"), ("b", "3")]);
    assert_eq!(l.len(), 2);
    assert_eq!(l.name_at(0), "a");
    assert_eq!(l.value_at(1), "3");
    assert_eq!(l.remove("a"), Some("1".to_string()));
    assert_eq!(l.remove("a"), None);
    assert!(!l.contains_key("a"));
    assert!(l.contains_key("b"));
}
