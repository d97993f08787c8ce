//! What a sender encodes is what is read.

use vstd::bytes::{lemma_auto_spec_u64_to_from_le_bytes, spec_u64_to_le_bytes};
use vstd::prelude::*;
use vstd::utf8::{encode_utf8, encode_utf8_decode_utf8, encode_utf8_valid_utf8};
use crate::double::{SIGN, ZERO};
use crate::ingest::protobuf::{
    delimited_at, double_at, int_at, key_at, label_at, label_from, request_from,
    request_of, sample_at, sample_from, series_at, series_from, string_at, varint_at, varint_from,
    no_series, wire_kind, Fault, ProtoErrorView, WireKind,
};
use crate::ingest::remote_write::{Sample, SeriesView};
use crate::labels::Pairs;

verus! {

// ---------- what a sender writes ----------

/// A number as a varint.
pub open spec fn varint_bytes(v: nat) -> Seq<u8>
    decreases v,
{
    if v < 128 {
        seq![v as u8]
    } else {
        seq![(v % 128 + 128) as u8] + varint_bytes(v / 128)
    }
}

/// A length-delimited field.
pub open spec fn delimited_field(tag: nat, body: Seq<u8>) -> Seq<u8> {
    varint_bytes(tag * 8 + 2) + varint_bytes(body.len()) + body
}

/// A string field; an empty string is not written.
pub open spec fn string_field(tag: nat, s: Seq<char>) -> Seq<u8> {
    if s.len() == 0 {
        Seq::empty()
    } else {
        delimited_field(tag, encode_utf8(s))
    }
}

/// A label.
pub open spec fn label_bytes(l: (Seq<char>, Seq<char>)) -> Seq<u8> {
    string_field(1, l.0) + string_field(2, l.1)
}

/// A sample's value; a zero, of either sign, is not written.
pub open spec fn value_field(value: u64) -> Seq<u8> {
    if value == ZERO || value == SIGN {
        Seq::empty()
    } else {
        varint_bytes(9) + spec_u64_to_le_bytes(value)
    }
}

/// A sample's timestamp; 0 is not written.
pub open spec fn timestamp_field(timestamp: i64) -> Seq<u8> {
    if timestamp == 0 {
        Seq::empty()
    } else {
        varint_bytes(16) + varint_bytes(timestamp as u64 as nat)
    }
}

/// A sample.
pub open spec fn sample_bytes(x: Sample) -> Seq<u8> {
    value_field(x.value) + timestamp_field(x.timestamp)
}

/// The labels of a series.
pub open spec fn label_fields(labels: Pairs) -> Seq<u8>
    decreases labels.len(),
{
    if labels.len() == 0 {
        Seq::empty()
    } else {
        delimited_field(1, label_bytes(labels[0])) + label_fields(labels.skip(1))
    }
}

/// The samples of a series.
pub open spec fn sample_fields(samples: Seq<Sample>) -> Seq<u8>
    decreases samples.len(),
{
    if samples.len() == 0 {
        Seq::empty()
    } else {
        delimited_field(2, sample_bytes(samples[0])) + sample_fields(samples.skip(1))
    }
}

/// A series.
pub open spec fn series_bytes(s: SeriesView) -> Seq<u8> {
    label_fields(s.labels) + sample_fields(s.samples)
}

/// A request.
pub open spec fn request_bytes(series: Seq<SeriesView>) -> Seq<u8>
    decreases series.len(),
{
    if series.len() == 0 {
        Seq::empty()
    } else {
        delimited_field(1, series_bytes(series[0])) + request_bytes(series.skip(1))
    }
}

/// Whether no sample's value is the negative zero, which is written as no value
/// is.
pub open spec fn no_negative_zero(series: Seq<SeriesView>) -> bool {
    forall|i: int, j: int|
        0 <= i < series.len() && 0 <= j < series[i].samples.len() ==> (
        #[trigger] series[i].samples[j]).value != SIGN
}

// ---------- reading it ----------

/// Whether some bytes stand at a place.
spec fn stands(bytes: Seq<u8>, pos: int, part: Seq<u8>) -> bool {
    &&& 0 <= pos
    &&& pos + part.len() <= bytes.len()
    &&& bytes.subrange(pos, pos + part.len()) == part
}

proof fn lemma_stands_split(bytes: Seq<u8>, pos: int, a: Seq<u8>, b: Seq<u8>)
    requires
        stands(bytes, pos, a + b),
    ensures
        stands(bytes, pos, a),
        stands(bytes, pos + a.len(), b),
{
    let whole = bytes.subrange(pos, pos + (a + b).len());
    assert(bytes.subrange(pos, pos + a.len()) =~= whole.take(a.len() as int));
    assert((a + b).take(a.len() as int) =~= a);
    assert(bytes.subrange(pos + a.len(), pos + a.len() + b.len()) =~= whole.skip(a.len() as int));
    assert((a + b).skip(a.len() as int) =~= b);
}

/// What still fits into a varint after `i` bytes.
spec fn cap(i: int) -> nat
    decreases 9 - i,
{
    if i >= 9 {
        2
    } else {
        128 * cap(i + 1)
    }
}

proof fn lemma_varint_read_from(b: Seq<u8>, i: int, v: nat)
    requires
        0 <= i <= 9,
        stands(b, i, varint_bytes(v)),
        v < cap(i),
    ensures
        varint_from(b, i) == Some((v, i + varint_bytes(v).len())),
    decreases v,
{
    let e = varint_bytes(v);
    assert(b.subrange(i, i + e.len())[0] == b[i]);
    if v < 128 {
        assert(b[i] == v as u8);
    } else {
        let rest = varint_bytes(v / 128);
        assert(b[i] == (v % 128 + 128) as u8);
        lemma_stands_split(b, i, seq![(v % 128 + 128) as u8], rest);
        assert(i < 9);
        assert(v / 128 < cap(i + 1));
        lemma_varint_read_from(b, i + 1, v / 128);
    }
}

proof fn lemma_varint_read(bytes: Seq<u8>, pos: int, v: nat)
    requires
        stands(bytes, pos, varint_bytes(v)),
        v <= u64::MAX,
    ensures
        varint_at(bytes, pos) == Some((v, pos + varint_bytes(v).len())),
{
    let b = bytes.skip(pos);
    let e = varint_bytes(v);
    assert(b.subrange(0, e.len() as int) =~= bytes.subrange(pos, pos + e.len()));
    assert(cap(0) == 0x1_0000_0000_0000_0000) by {
        reveal_with_fuel(cap, 11);
    }
    lemma_varint_read_from(b, 0, v);
}

proof fn lemma_key_read(bytes: Seq<u8>, pos: int, tag: nat, kind: nat)
    requires
        1 <= tag <= 2,
        kind <= 5,
        stands(bytes, pos, varint_bytes(tag * 8 + kind)),
    ensures
        key_at(bytes, pos) == Ok::<(int, WireKind, int), Fault>(
            (tag as int, wire_kind(kind as int)->0, pos + varint_bytes(tag * 8 + kind).len()),
        ),
        varint_bytes(tag * 8 + kind).len() > 0,
{
    let v = tag * 8 + kind;
    lemma_varint_read(bytes, pos, v);
    assert(v as int % 8 == kind && v as int / 8 == tag);
}

/// What reading the key and the length of a delimited field gives.
proof fn lemma_delimited_read(bytes: Seq<u8>, pos: int, tag: nat, body: Seq<u8>)
    requires
        1 <= tag <= 2,
        stands(bytes, pos, delimited_field(tag, body)),
        bytes.len() <= u64::MAX,
    ensures
        ({
            let next = pos + varint_bytes(tag * 8 + 2).len();
            let start = next + varint_bytes(body.len()).len();
            let end = start + body.len();
            &&& key_at(bytes, pos) == Ok::<(int, WireKind, int), Fault>(
                (tag as int, WireKind::LengthDelimited, next),
            )
            &&& delimited_at(bytes, next) == Ok::<(int, int), Fault>(
                (start, end),
            )
            &&& stands(bytes, start, body)
            &&& end == pos + delimited_field(tag, body).len()
            &&& end <= bytes.len()
            &&& pos < next
        }),
{
    let k = varint_bytes(tag * 8 + 2);
    let l = varint_bytes(body.len());
    assert(delimited_field(tag, body) =~= k + (l + body));
    lemma_stands_split(bytes, pos, k, l + body);
    lemma_stands_split(bytes, pos + k.len(), l, body);
    lemma_key_read(bytes, pos, tag, 2);
    lemma_varint_read(bytes, pos + k.len(), body.len());
}

proof fn lemma_string_read(bytes: Seq<u8>, pos: int, tag: nat, s: Seq<char>)
    requires
        1 <= tag <= 2,
        s.len() > 0,
        stands(bytes, pos, string_field(tag, s)),
        bytes.len() <= u64::MAX,
    ensures
        ({
            let next = pos + varint_bytes(tag * 8 + 2).len();
            let end = pos + string_field(tag, s).len();
            &&& key_at(bytes, pos) == Ok::<(int, WireKind, int), Fault>(
                (tag as int, WireKind::LengthDelimited, next),
            )
            &&& string_at(bytes, next, WireKind::LengthDelimited) == Ok::<
                (Seq<char>, int),
                Fault,
            >((s, end))
            &&& pos < end <= bytes.len()
        }),
{
    let body = encode_utf8(s);
    lemma_delimited_read(bytes, pos, tag, body);
    encode_utf8_valid_utf8(s);
    encode_utf8_decode_utf8(s);
}

proof fn lemma_label_read(bytes: Seq<u8>, pos: int, l: (Seq<char>, Seq<char>))
    requires
        stands(bytes, pos, label_bytes(l)),
        bytes.len() <= u64::MAX,
    ensures
        label_from(bytes, pos, pos + label_bytes(l).len(), Seq::empty(), Seq::empty()) == Ok::<
            ((Seq<char>, Seq<char>), int),
            ProtoErrorView,
        >((l, pos + label_bytes(l).len())),
{
    let a = string_field(1, l.0);
    let b = string_field(2, l.1);
    let mid = pos + a.len();
    let end = pos + label_bytes(l).len();
    lemma_stands_split(bytes, pos, a, b);
    if l.1.len() > 0 {
        lemma_string_read(bytes, mid, 2, l.1);
    }
    if l.0.len() > 0 {
        lemma_string_read(bytes, pos, 1, l.0);
    }
    assert(label_from(bytes, end, end, l.0, l.1) == Ok::<
        ((Seq<char>, Seq<char>), int),
        ProtoErrorView,
    >((l, end)));
    if l.1.len() > 0 {
        assert(label_from(bytes, mid, end, l.0, Seq::empty()) == label_from(
            bytes,
            end,
            end,
            l.0,
            l.1,
        ));
    } else {
        assert(l.1 =~= Seq::empty());
        assert(mid == end);
    }
    if l.0.len() == 0 {
        assert(l.0 =~= Seq::empty());
        assert(mid == pos);
    }
}

proof fn lemma_sample_read(bytes: Seq<u8>, pos: int, x: Sample)
    requires
        stands(bytes, pos, sample_bytes(x)),
        bytes.len() <= u64::MAX,
        x.value != SIGN,
    ensures
        sample_from(
            bytes,
            pos,
            pos + sample_bytes(x).len(),
            (Sample { value: 0, timestamp: 0 }),
        ) == Ok::<(Sample, int), ProtoErrorView>((x, pos + sample_bytes(x).len())),
{
    let a = value_field(x.value);
    let b = timestamp_field(x.timestamp);
    let mid = pos + a.len();
    let end = pos + sample_bytes(x).len();
    lemma_stands_split(bytes, pos, a, b);
    let half = Sample { value: x.value, timestamp: 0 };
    assert(sample_from(bytes, end, end, x) == Ok::<(Sample, int), ProtoErrorView>((x, end)));
    if x.timestamp != 0 {
        let t = x.timestamp;
        let v = t as u64;
        assert(t as u64 as i64 == t) by (bit_vector);
        lemma_stands_split(bytes, mid, varint_bytes(16), varint_bytes(v as nat));
        lemma_key_read(bytes, mid, 2, 0);
        lemma_varint_read(bytes, mid + varint_bytes(16).len(), v as nat);
        assert(int_at(bytes, mid + varint_bytes(16).len(), WireKind::Varint) == Ok::<
            (i64, int),
            Fault,
        >((t, end)));
        assert(sample_from(bytes, mid, end, half) == sample_from(bytes, end, end, x));
    } else {
        assert(mid == end);
        assert(half == x);
    }
    if x.value != ZERO {
        let next = pos + varint_bytes(9).len();
        lemma_auto_spec_u64_to_from_le_bytes();
        lemma_stands_split(bytes, pos, varint_bytes(9), spec_u64_to_le_bytes(x.value));
        lemma_key_read(bytes, pos, 1, 1);
        assert(spec_u64_to_le_bytes(x.value).len() == 8);
        assert(double_at(bytes, next, WireKind::SixtyFourBit) == Ok::<
            (u64, int),
            Fault,
        >((x.value, mid)));
        assert(sample_from(bytes, pos, end, (Sample { value: 0, timestamp: 0 })) == sample_from(
            bytes,
            mid,
            end,
            half,
        ));
    } else {
        assert(mid == pos);
    }
}

proof fn lemma_samples_read(bytes: Seq<u8>, pos: int, samples: Seq<Sample>, acc: SeriesView)
    requires
        stands(bytes, pos, sample_fields(samples)),
        bytes.len() <= u64::MAX,
        forall|i: int| 0 <= i < samples.len() ==> (#[trigger] samples[i]).value != SIGN,
    ensures
        series_from(bytes, pos, pos + sample_fields(samples).len(), acc) == Ok::<
            (SeriesView, int),
            ProtoErrorView,
        >(
            (
                SeriesView { labels: acc.labels, samples: acc.samples + samples },
                pos + sample_fields(samples).len(),
            ),
        ),
    decreases samples.len(),
{
    let end = pos + sample_fields(samples).len();
    if samples.len() == 0 {
        assert(acc.samples + samples =~= acc.samples);
    } else {
        let x = samples[0];
        let f = delimited_field(2, sample_bytes(x));
        let rest = samples.skip(1);
        lemma_stands_split(bytes, pos, f, sample_fields(rest));
        lemma_delimited_read(bytes, pos, 2, sample_bytes(x));
        let next = pos + varint_bytes(18).len();
        let start = next + varint_bytes(sample_bytes(x).len()).len();
        lemma_sample_read(bytes, start, x);
        assert(sample_at(bytes, next, WireKind::LengthDelimited) == Ok::<
            (Sample, int),
            ProtoErrorView,
        >((x, pos + f.len())));
        let acc1 = SeriesView { labels: acc.labels, samples: acc.samples.push(x) };
        assert forall|i: int| 0 <= i < rest.len() implies (#[trigger] rest[i]).value != SIGN by {
            assert(rest[i] == samples[i + 1]);
        }
        lemma_samples_read(bytes, pos + f.len(), rest, acc1);
        assert(acc1.samples + rest =~= acc.samples + samples);
    }
}

proof fn lemma_series_read(bytes: Seq<u8>, pos: int, s: SeriesView, acc: SeriesView)
    requires
        stands(bytes, pos, series_bytes(s)),
        bytes.len() <= u64::MAX,
        forall|i: int| 0 <= i < s.samples.len() ==> (#[trigger] s.samples[i]).value != SIGN,
    ensures
        series_from(bytes, pos, pos + series_bytes(s).len(), acc) == Ok::<
            (SeriesView, int),
            ProtoErrorView,
        >(
            (
                SeriesView { labels: acc.labels + s.labels, samples: acc.samples + s.samples },
                pos + series_bytes(s).len(),
            ),
        ),
    decreases s.labels.len(),
{
    let end = pos + series_bytes(s).len();
    if s.labels.len() == 0 {
        assert(series_bytes(s) =~= sample_fields(s.samples));
        lemma_samples_read(bytes, pos, s.samples, acc);
        assert(acc.labels + s.labels =~= acc.labels);
    } else {
        let l = s.labels[0];
        let f = delimited_field(1, label_bytes(l));
        let rest = SeriesView { labels: s.labels.skip(1), samples: s.samples };
        assert(series_bytes(s) =~= f + series_bytes(rest));
        lemma_stands_split(bytes, pos, f, series_bytes(rest));
        lemma_delimited_read(bytes, pos, 1, label_bytes(l));
        let next = pos + varint_bytes(10).len();
        let start = next + varint_bytes(label_bytes(l).len()).len();
        lemma_label_read(bytes, start, l);
        assert(label_at(bytes, next, WireKind::LengthDelimited) == Ok::<
            ((Seq<char>, Seq<char>), int),
            ProtoErrorView,
        >((l, pos + f.len())));
        let acc1 = SeriesView { labels: acc.labels.push(l), samples: acc.samples };
        lemma_series_read(bytes, pos + f.len(), rest, acc1);
        assert(acc1.labels + rest.labels =~= acc.labels + s.labels);
    }
}

proof fn lemma_request_read(
    bytes: Seq<u8>,
    pos: int,
    series: Seq<SeriesView>,
    acc: Seq<SeriesView>,
)
    requires
        stands(bytes, pos, request_bytes(series)),
        pos + request_bytes(series).len() == bytes.len(),
        bytes.len() <= u64::MAX,
        no_negative_zero(series),
    ensures
        request_from(bytes, pos, acc) == Ok::<Seq<SeriesView>, ProtoErrorView>(acc + series),
    decreases series.len(),
{
    if series.len() == 0 {
        assert(acc + series =~= acc);
    } else {
        let s = series[0];
        let f = delimited_field(1, series_bytes(s));
        let rest = series.skip(1);
        lemma_stands_split(bytes, pos, f, request_bytes(rest));
        lemma_delimited_read(bytes, pos, 1, series_bytes(s));
        let next = pos + varint_bytes(10).len();
        let start = next + varint_bytes(series_bytes(s).len()).len();
        assert forall|j: int| 0 <= j < s.samples.len() implies (#[trigger] s.samples[j]).value
            != SIGN by {
            assert(series[0].samples[j].value != SIGN);
        }
        lemma_series_read(bytes, start, s, no_series());
        assert(no_series().labels + s.labels =~= s.labels);
        assert(no_series().samples + s.samples =~= s.samples);
        assert(series_at(bytes, next, WireKind::LengthDelimited) == Ok::<
            (SeriesView, int),
            ProtoErrorView,
        >((s, pos + f.len())));
        assert forall|i: int, j: int|
            0 <= i < rest.len() && 0 <= j < rest[i].samples.len() implies (
        #[trigger] rest[i].samples[j]).value != SIGN by {
            assert(rest[i] == series[i + 1]);
            assert(series[i + 1].samples[j].value != SIGN);
        }
        lemma_request_read(bytes, pos + f.len(), rest, acc.push(s));
        assert(acc.push(s) + rest =~= acc + series);
    }
}

/// A request that a sender encodes is read back as it was: every series, label
/// and sample, in order. A negative zero is the one value that does not come back
/// as it was: senders leave it out, and it is read as zero.
pub proof fn law_encoded_requests_are_read_back(series: Seq<SeriesView>)
    requires
        request_bytes(series).len() <= u64::MAX,
        no_negative_zero(series),
    ensures
        request_of(request_bytes(series)) == Ok::<Seq<SeriesView>, ProtoErrorView>(series),
{
    let bytes = request_bytes(series);
    assert(bytes.subrange(0, bytes.len() as int) =~= bytes);
    lemma_request_read(bytes, 0, series, Seq::empty());
    assert(Seq::<SeriesView>::empty() + series =~= series);
}

} // verus!
