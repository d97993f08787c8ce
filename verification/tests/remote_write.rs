use prost::encoding::{encode_key, encode_varint, WireType};
use skaldberg::ingest::protobuf::{read_request, Fault, WireKind};
use skaldberg::ingest::remote_write::{
    decode_body, decode_write_request, flatten_write_request, DecodeError, Label, Sample,
    TimeSeries, WriteRequest,
};

fn point(timestamp: i64, value: f64) -> Sample {
    Sample { timestamp, value: value.to_bits() }
}

fn write_request_with(
    name: &str,
    labels: &[(&str, &str)],
    samples: &[(i64, f64)],
) -> WriteRequest {
    let mut all_labels = vec![Label { name: "__name__".into(), value: name.into() }];
    for (k, v) in labels {
        all_labels.push(Label { name: (*k).into(), value: (*v).into() });
    }
    WriteRequest {
        timeseries: vec![TimeSeries {
            labels: all_labels,
            samples: samples.iter().map(|(t, v)| point(*t, *v)).collect(),
        }],
    }
}

fn nested(tag: u32, body: &[u8], out: &mut Vec<u8>) {
    encode_key(tag, WireType::LengthDelimited, out);
    encode_varint(body.len() as u64, out);
    out.extend_from_slice(body);
}

/// The message as prost's encoder writes it: fields that hold their default are
/// left out.
fn encode(req: &WriteRequest) -> Vec<u8> {
    let mut out = Vec::new();
    for series in &req.timeseries {
        let mut body = Vec::new();
        for label in &series.labels {
            let mut one = Vec::new();
            if !label.name.is_empty() {
                prost::encoding::string::encode(1, &label.name, &mut one);
            }
            if !label.value.is_empty() {
                prost::encoding::string::encode(2, &label.value, &mut one);
            }
            nested(1, &one, &mut body);
        }
        for sample in &series.samples {
            let mut one = Vec::new();
            let value = f64::from_bits(sample.value);
            if value != 0.0 {
                prost::encoding::double::encode(1, &value, &mut one);
            }
            if sample.timestamp != 0 {
                prost::encoding::int64::encode(2, &sample.timestamp, &mut one);
            }
            nested(2, &one, &mut body);
        }
        nested(1, &body, &mut out);
    }
    out
}

fn encode_compressed(req: &WriteRequest) -> Vec<u8> {
    let mut enc = snap::raw::Encoder::new();
    enc.compress_vec(&encode(req)).unwrap()
}

#[test]
fn decode_roundtrip_minimal() {
    let req = write_request_with("foo", &[("a", "1")], &[(1714800000000, 42.0)]);
    let body = encode_compressed(&req);
    let decoded = decode_write_request(&body).unwrap();
    assert_eq!(decoded, req);
}

#[test]
fn decode_empty_request() {
    let req = WriteRequest { timeseries: vec![] };
    let body = encode_compressed(&req);
    let d = decode_write_request(&body).unwrap();
    assert!(d.timeseries.is_empty());
}

#[test]
fn decode_rejects_garbage_snappy() {
    let r = decode_write_request(&[0xFF, 0xFE, 0xFD]);
    assert!(r.is_err());
}

#[test]
fn decode_rejects_garbage_protobuf() {
    // Valid snappy of garbage bytes that will fail protobuf decoding.
    let mut enc = snap::raw::Encoder::new();
    let garbage = enc.compress_vec(&[0xFF; 64]).unwrap();
    let r = decode_write_request(&garbage);
    assert!(matches!(r, Err(DecodeError::Protobuf(_))));
}

#[test]
fn flatten_extracts_name_label() {
    let req = write_request_with(
        "http_requests_total",
        &[("job", "api"), ("status", "200")],
        &[(1, 1.0), (2, 2.0)],
    );
    let (raws, stats) = flatten_write_request(req);
    assert_eq!(stats.series_total, 1);
    assert_eq!(stats.series_dropped_no_name, 0);
    assert_eq!(stats.samples_emitted, 2);
    assert_eq!(raws.len(), 2);
    assert_eq!(raws[0].metric, "http_requests_total");
    assert!(!raws[0].labels.contains_key("__name__"));
    assert_eq!(raws[0].labels.get("job"), Some(&"api".to_string()));
    assert_eq!(raws[0].ts, 1);
    assert_eq!(f64::from_bits(raws[0].value), 1.0);
    assert_eq!(raws[1].ts, 2);
}

#[test]
fn flatten_drops_series_with_no_name() {
    let req = WriteRequest {
        timeseries: vec![TimeSeries {
            labels: vec![Label { name: "job".into(), value: "x".into() }],
            samples: vec![point(1, 1.0)],
        }],
    };
    let (raws, stats) = flatten_write_request(req);
    assert!(raws.is_empty());
    assert_eq!(stats.series_dropped_no_name, 1);
    assert_eq!(stats.samples_emitted, 0);
}

#[test]
fn flatten_drops_empty_name() {
    let req = write_request_with("", &[], &[(1, 1.0)]);
    let (raws, stats) = flatten_write_request(req);
    assert!(raws.is_empty());
    assert_eq!(stats.series_dropped_no_name, 1);
}

#[test]
fn flatten_drops_reserved_labels_silently() {
    // `__replica__` is something senders sometimes add. We strip it
    // rather than fail the whole sample.
    let req = write_request_with(
        "foo",
        &[("__replica__", "ignored"), ("job", "x")],
        &[(1, 1.0)],
    );
    let (raws, _) = flatten_write_request(req);
    assert_eq!(raws.len(), 1);
    assert_eq!(raws[0].labels.get("job"), Some(&"x".to_string()));
    assert!(!raws[0].labels.contains_key("__replica__"));
}

#[test]
fn flatten_multiple_series() {
    let req = WriteRequest {
        timeseries: vec![
            write_request_with("a", &[], &[(1, 1.0)]).timeseries[0].clone(),
            write_request_with("b", &[("k", "v")], &[(2, 2.0), (3, 3.0)]).timeseries[0].clone(),
        ],
    };
    let (raws, stats) = flatten_write_request(req);
    assert_eq!(stats.series_total, 2);
    assert_eq!(stats.samples_emitted, 3);
    assert_eq!(raws[0].metric, "a");
    assert_eq!(raws[1].metric, "b");
    assert_eq!(raws[2].metric, "b");
}

#[test]
fn flatten_preserves_sample_values_including_special() {
    // NaN / Inf are decode-able through prost (they're just f64 bytes).
    // Our validate() will reject them later; here we just confirm we
    // don't drop them at decode time.
    let req = write_request_with("m", &[], &[(1, f64::NAN), (2, f64::INFINITY), (3, 0.0)]);
    let (raws, stats) = flatten_write_request(req);
    assert_eq!(stats.samples_emitted, 3);
    assert!(f64::from_bits(raws[0].value).is_nan());
    assert!(f64::from_bits(raws[1].value).is_infinite());
    assert_eq!(f64::from_bits(raws[2].value), 0.0);
}

#[test]
fn decode_then_flatten_full_pipeline() {
    let req = write_request_with(
        "http_requests_total",
        &[("job", "api"), ("status", "200")],
        &[(1714800000000, 42.0), (1714800001000, 43.0)],
    );
    let body = encode_compressed(&req);
    let decoded = decode_write_request(&body).unwrap();
    let (raws, stats) = flatten_write_request(decoded);
    assert_eq!(stats.samples_emitted, 2);
    assert_eq!(raws.len(), 2);
    assert_eq!(raws[0].metric, "http_requests_total");
    assert_eq!(raws[0].ts, 1714800000000);
}

#[test]
fn encoded_requests_are_read_back() {
    let req = WriteRequest {
        timeseries: vec![
            write_request_with("größe", &[("", "x"), ("y", "")], &[(-5, -1.5), (0, 0.0)]).timeseries[0]
                .clone(),
            TimeSeries { labels: vec![], samples: vec![] },
            write_request_with("b", &[], &[(i64::MAX, f64::INFINITY), (i64::MIN, 1e-300)]).timeseries
                [0]
            .clone(),
        ],
    };
    assert_eq!(read_request(&encode(&req)).unwrap(), req);
}

#[test]
fn unknown_fields_are_skipped() {
    let mut body = Vec::new();
    encode_key(9, WireType::Varint, &mut body);
    encode_varint(300, &mut body);
    encode_key(9, WireType::SixtyFourBit, &mut body);
    body.extend_from_slice(&[1, 2, 3, 4, 5, 6, 7, 8]);
    encode_key(9, WireType::ThirtyTwoBit, &mut body);
    body.extend_from_slice(&[1, 2, 3, 4]);
    nested(9, b"abc", &mut body);
    encode_key(9, WireType::StartGroup, &mut body);
    encode_key(2, WireType::Varint, &mut body);
    encode_varint(1, &mut body);
    encode_key(9, WireType::EndGroup, &mut body);
    let req = write_request_with("m", &[], &[(1, 1.0)]);
    body.extend_from_slice(&encode(&req));
    assert_eq!(read_request(&body).unwrap(), req);
}

#[test]
fn oversized_body_is_refused_unread() {
    // A header that declares 32 MiB and one byte, and nothing else.
    let mut body = Vec::new();
    encode_varint(33_554_433, &mut body);
    match decode_write_request(&body) {
        Err(e) => {
            assert!(matches!(e, DecodeError::TooLarge { actual: 33_554_433, max: 33_554_432 }));
            assert_eq!(
                e.message(),
                "decompressed body is 33554433 bytes, max is 33554432"
            );
        }
        Ok(_) => panic!("accepted"),
    }
}

#[test]
fn snappy_complaint_is_passed_on() {
    let want = snap::raw::Decoder::new().decompress_vec(&[5, 0xFE]).unwrap_err().to_string();
    match decode_write_request(&[5, 0xFE]) {
        Err(DecodeError::Snappy(m)) => {
            assert_eq!(m, want);
            assert_eq!(
                DecodeError::Snappy(m).message(),
                format!("snappy decompress: {}", want)
            );
        }
        other => panic!("{:?}", other),
    }
}

#[test]
fn faults_name_the_fields_they_came_up_in() {
    // WriteRequest.timeseries -> TimeSeries.labels -> Label.name, not UTF-8.
    let mut label = Vec::new();
    nested(1, &[0xFF], &mut label);
    let mut series = Vec::new();
    nested(1, &label, &mut series);
    let mut body = Vec::new();
    nested(1, &series, &mut body);
    let e = read_request(&body).unwrap_err();
    assert_eq!(e.fault, Fault::InvalidString);
    assert_eq!(
        e.message(),
        "failed to decode Protobuf message: Label.name: TimeSeries.labels: \
         WriteRequest.timeseries: invalid string value: data is not UTF-8 encoded"
    );
    assert_eq!(
        decode_body(&body).unwrap_err().message(),
        format!("protobuf decode: {}", e.message())
    );
}

fn fault_of(body: &[u8]) -> Fault {
    read_request(body).unwrap_err().fault
}

#[test]
fn every_fault_has_an_input() {
    assert_eq!(fault_of(&[0x80]), Fault::InvalidVarint);
    assert_eq!(fault_of(&[0x0E]), Fault::InvalidWireType(6));
    assert_eq!(
        fault_of(&[0x80, 0x80, 0x80, 0x80, 0x10]),
        Fault::InvalidKey(0x1_0000_0000)
    );
    assert_eq!(fault_of(&[0x00]), Fault::InvalidTag);
    assert_eq!(
        fault_of(&[0x08, 0x01]),
        Fault::UnexpectedWireType {
            actual: WireKind::Varint,
            expected: WireKind::LengthDelimited,
        }
    );
    assert_eq!(fault_of(&[0x0A, 0x05, 0x00]), Fault::BufferUnderflow);
    assert_eq!(fault_of(&[0x0A, 0x01, 0x0A, 0x00]), Fault::DelimitedLengthExceeded);
    assert_eq!(fault_of(&[0x4C]), Fault::UnexpectedEndGroupTag);
    // Groups nested deeper than the limit.
    let mut deep = Vec::new();
    for _ in 0..200 {
        encode_key(9, WireType::StartGroup, &mut deep);
    }
    assert_eq!(fault_of(&deep), Fault::RecursionLimitReached);
}

#[test]
fn fault_messages() {
    let text = |body: &[u8]| read_request(body).unwrap_err().message();
    assert_eq!(text(&[0x80]), "failed to decode Protobuf message: invalid varint");
    assert_eq!(
        text(&[0x0E]),
        "failed to decode Protobuf message: invalid wire type value: 6"
    );
    assert_eq!(
        text(&[0x08, 0x01]),
        "failed to decode Protobuf message: WriteRequest.timeseries: invalid wire type: Varint \
         (expected LengthDelimited)"
    );
}
