//! Prometheus Remote-Write 1.0 receiver.
//!
//! The body of a request is a snappy-compressed (raw, not framed) protobuf
//! message:
//!
//! ```proto
//! message WriteRequest { repeated TimeSeries timeseries = 1; }
//! message TimeSeries   { repeated Label labels = 1;
//!                        repeated Sample samples = 2;
//!                        repeated Exemplar exemplars = 3;
//!                        repeated Histogram histograms = 4; }
//! message Label        { string name = 1; string value = 2; }
//! message Sample       { double value = 1; int64 timestamp = 2; }
//! ```
//!
//! Histograms and exemplars are passed over, as is every field that is not
//! declared.
//!
//! The metric name is carried in the reserved label `__name__`. It becomes
//! `RawSample::metric`; all other labels are passed through as they are. Labels
//! that start with `__` (other than `__name__`) are reserved for internal use
//! and are dropped quietly: validation would reject them, and with them the
//! rest of the batch.

use vstd::prelude::*;
use vstd::string::StringExecFns;
use crate::ingest::protobuf::{
    proto_error_text, read_request, request_of, ProtoError, ProtoErrorView,
};
use crate::ingest::types::RawSample;
use crate::labels::{
    is_label_map, label_map, lemma_label_map, lemma_label_map_exists, lookup, Labels, Pairs,
};
use crate::text::{begins_with, decimal, push_decimal, same_text, starts_with};

verus! {

/// The largest decompressed body that is accepted: 32 MiB. A snappy body can
/// expand many times over, so the size is capped.
pub const MAX_DECOMPRESSED_BYTES: usize = 33_554_432;

/// A whole request.
#[derive(Debug, Clone, PartialEq)]
pub struct WriteRequest {
    pub timeseries: Vec<TimeSeries>,
}

/// One series with its samples.
#[derive(Debug, Clone, PartialEq)]
pub struct TimeSeries {
    pub labels: Vec<Label>,
    pub samples: Vec<Sample>,
}

/// One label of a series.
#[derive(Debug, Clone, PartialEq)]
pub struct Label {
    pub name: String,
    pub value: String,
}

/// One sample of a series: the bit pattern of a double, and milliseconds since
/// the Unix epoch.
#[derive(Debug, Clone, Copy, PartialEq, Eq)]
pub struct Sample {
    pub value: u64,
    pub timestamp: i64,
}

/// The view of a `TimeSeries`.
#[verifier::ext_equal]
pub struct SeriesView {
    pub labels: Pairs,
    pub samples: Seq<Sample>,
}

impl View for TimeSeries {
    type V = SeriesView;

    open spec fn view(&self) -> SeriesView {
        SeriesView { labels: label_views(self.labels@), samples: self.samples@ }
    }
}

/// The views of a list of labels.
pub open spec fn label_views(s: Seq<Label>) -> Pairs {
    s.map_values(|l: Label| (l.name@, l.value@))
}

/// The views of a list of series.
pub open spec fn series_views(s: Seq<TimeSeries>) -> Seq<SeriesView> {
    s.map_values(|t: TimeSeries| t@)
}

/// Outcome of flattening a request.
#[derive(Debug)]
pub struct ConversionStats {
    pub series_total: usize,
    pub series_dropped_no_name: usize,
    pub samples_emitted: usize,
}

// ---------- decoding ----------

/// Why a body could not be decoded.
#[derive(Debug)]
pub enum DecodeError {
    Snappy(String),
    TooLarge { actual: usize, max: usize },
    Protobuf(ProtoError),
}

/// The view of a `DecodeError`.
#[verifier::ext_equal]
pub enum DecodeFailure {
    Snappy(Seq<char>),
    TooLarge { actual: usize, max: usize },
    Protobuf(ProtoErrorView),
}

impl View for DecodeError {
    type V = DecodeFailure;

    open spec fn view(&self) -> DecodeFailure {
        match *self {
            DecodeError::Snappy(m) => DecodeFailure::Snappy(m@),
            DecodeError::TooLarge { actual, max } => DecodeFailure::TooLarge { actual, max },
            DecodeError::Protobuf(e) => DecodeFailure::Protobuf(e@),
        }
    }
}

/// The text of a decoding failure.
pub open spec fn failure_text(e: DecodeFailure) -> Seq<char> {
    match e {
        DecodeFailure::Snappy(m) => "snappy decompress: "@ + m,
        DecodeFailure::TooLarge { actual, max } => "decompressed body is "@ + decimal(actual as nat)
            + " bytes, max is "@ + decimal(max as nat),
        DecodeFailure::Protobuf(p) => "protobuf decode: "@ + proto_error_text(p),
    }
}

impl DecodeError {
    /// The text of the error.
    pub fn message(&self) -> (r: String)
        ensures
            r@ == failure_text(self@),
    {
        match self {
            DecodeError::Snappy(m) => {
                let mut s = "snappy decompress: ".to_string();
                s.append(m.as_str());
                s
            },
            DecodeError::TooLarge { actual, max } => {
                let mut s = "decompressed body is ".to_string();
                push_decimal(&mut s, *actual as u64);
                s.append(" bytes, max is ");
                push_decimal(&mut s, *max as u64);
                s
            },
            DecodeError::Protobuf(e) => {
                let mut s = "protobuf decode: ".to_string();
                s.append(e.message().as_str());
                s
            },
        }
    }
}

/// The size that a snappy body declares, if it declares one.
pub uninterp spec fn snappy_declared(compressed: Seq<u8>) -> Option<usize>;

/// What a snappy body decompresses to, or the decompressor's complaint.
pub uninterp spec fn snappy_body(compressed: Seq<u8>) -> Result<Seq<u8>, Seq<char>>;

/// `snap::raw::decompress_len`: the size in the header of a raw snappy body,
/// `None` where it has none. Nothing is decompressed. How the header is laid out
/// is not spelled out.
#[verifier::external_body]
fn declared_len(compressed: &[u8]) -> (r: Option<usize>)
    ensures
        r == snappy_declared(compressed@),
{
    snap::raw::decompress_len(compressed).ok()
}

/// `snap::raw::Decoder::decompress_vec`: the contents of a raw snappy body, or
/// the error's text. Contents that come out have the size that was declared. The
/// compression is not spelled out.
#[verifier::external_body]
fn decompress(compressed: &[u8]) -> (r: Result<Vec<u8>, String>)
    ensures
        match r {
            Ok(body) => snappy_body(compressed@) == Ok::<Seq<u8>, Seq<char>>(body@)
                && snappy_declared(compressed@) == Some(body.len()),
            Err(m) => snappy_body(compressed@) == Err::<Seq<u8>, Seq<char>>(m@),
        },
{
    snap::raw::Decoder::new().decompress_vec(compressed).map_err(|e| e.to_string())
}

/// The series of a decompressed body.
pub open spec fn body_series(body: Seq<u8>) -> Result<Seq<SeriesView>, DecodeFailure> {
    if body.len() > MAX_DECOMPRESSED_BYTES {
        Err(
            DecodeFailure::TooLarge { actual: body.len() as usize, max: MAX_DECOMPRESSED_BYTES },
        )
    } else {
        match request_of(body) {
            Ok(s) => Ok(s),
            Err(e) => Err(DecodeFailure::Protobuf(e)),
        }
    }
}

/// The series of a compressed body. One that declares to be too large is refused
/// before it is decompressed.
pub open spec fn written_series(compressed: Seq<u8>) -> Result<Seq<SeriesView>, DecodeFailure> {
    match snappy_declared(compressed) {
        Some(n) if n > MAX_DECOMPRESSED_BYTES => Err(
            DecodeFailure::TooLarge { actual: n, max: MAX_DECOMPRESSED_BYTES },
        ),
        _ => match snappy_body(compressed) {
            Err(m) => Err(DecodeFailure::Snappy(m)),
            Ok(body) => body_series(body),
        },
    }
}

/// Whether a decoded request holds those series, or its error is that failure.
pub open spec fn decodes_to(
    r: Result<WriteRequest, DecodeError>,
    want: Result<Seq<SeriesView>, DecodeFailure>,
) -> bool {
    match want {
        Ok(s) => r is Ok && series_views(r->Ok_0.timeseries@) == s,
        Err(e) => r is Err && r->Err_0@ == e,
    }
}

/// Decode a decompressed body.
pub fn decode_body(body: &[u8]) -> (r: Result<WriteRequest, DecodeError>)
    ensures
        decodes_to(r, body_series(body@)),
{
    if body.len() > MAX_DECOMPRESSED_BYTES {
        return Err(
            DecodeError::TooLarge { actual: body.len(), max: MAX_DECOMPRESSED_BYTES },
        );
    }
    match read_request(body) {
        Ok(req) => Ok(req),
        Err(e) => Err(DecodeError::Protobuf(e)),
    }
}

/// Decompress and decode a remote-write body. The size of one that is too large
/// is the size it declares.
pub fn decode_write_request(compressed: &[u8]) -> (r: Result<WriteRequest, DecodeError>)
    ensures
        decodes_to(r, written_series(compressed@)),
        r matches Err(DecodeError::TooLarge { actual, max }) ==> snappy_declared(compressed@)
            == Some(actual),
{
    if let Some(declared) = declared_len(compressed) {
        if declared > MAX_DECOMPRESSED_BYTES {
            return Err(
                DecodeError::TooLarge { actual: declared, max: MAX_DECOMPRESSED_BYTES },
            );
        }
    }
    match decompress(compressed) {
        Ok(body) => decode_body(body.as_slice()),
        Err(m) => Err(DecodeError::Snappy(m)),
    }
}

// ---------- flattening ----------

/// The view of a `RawSample`.
#[verifier::ext_equal]
pub struct RawView {
    pub metric: Seq<char>,
    pub labels: Pairs,
    pub ts: i64,
    pub value: u64,
}

impl View for RawSample {
    type V = RawView;

    open spec fn view(&self) -> RawView {
        RawView { metric: self.metric@, labels: self.labels@, ts: self.ts, value: self.value }
    }
}

/// The views of a list of raw samples.
pub open spec fn raw_views(s: Seq<RawSample>) -> Seq<RawView> {
    s.map_values(|r: RawSample| r@)
}

/// The labels that are passed through: those not reserved, in the order given.
pub open spec fn kept_labels(labels: Pairs) -> Pairs
    decreases labels.len(),
{
    if labels.len() == 0 {
        Seq::empty()
    } else if begins_with(labels.last().0, "__"@) {
        kept_labels(labels.drop_last())
    } else {
        kept_labels(labels.drop_last()).push(labels.last())
    }
}

/// A series' metric name: the last `__name__`, unless it is empty.
pub open spec fn metric_name(labels: Pairs) -> Option<Seq<char>> {
    match lookup(labels, "__name__"@) {
        Some(n) => if n.len() > 0 {
            Some(n)
        } else {
            None
        },
        None => None,
    }
}

/// A series' samples, one by one, each with the metric name and the labels
/// passed through; none if the series has no name.
pub open spec fn flat_series(s: SeriesView) -> Seq<RawView> {
    match metric_name(s.labels) {
        Some(metric) => s.samples.map_values(
            |x: Sample|
                RawView {
                    metric,
                    labels: label_map(kept_labels(s.labels)),
                    ts: x.timestamp,
                    value: x.value,
                },
        ),
        None => Seq::empty(),
    }
}

/// The samples of all series, one series after another.
pub open spec fn flat(s: Seq<SeriesView>) -> Seq<RawView>
    decreases s.len(),
{
    if s.len() == 0 {
        Seq::empty()
    } else {
        flat(s.drop_last()) + flat_series(s.last())
    }
}

/// How many series have no name.
pub open spec fn nameless(s: Seq<SeriesView>) -> nat
    decreases s.len(),
{
    if s.len() == 0 {
        0
    } else {
        nameless(s.drop_last()) + if metric_name(s.last().labels) is None {
            1nat
        } else {
            0nat
        }
    }
}

fn read_labels(given: &Vec<Label>) -> (r: (Option<String>, Labels))
    ensures
        r.0 is Some == lookup(label_views(given@), "__name__"@) is Some,
        r.0 is Some ==> r.0->0@ == lookup(label_views(given@), "__name__"@)->0,
        r.1@ == label_map(kept_labels(label_views(given@))),
{
    let ghost all = label_views(given@);
    let mut metric: Option<String> = None;
    let mut labels = Labels::new();
    let mut i: usize = 0;
    proof {
        reveal_strlit("__");
        reveal_strlit("__name__");
        assert(begins_with("__name__"@, "__"@)) by {
            assert("__name__"@.take(2) =~= "__"@);
        }
        assert(is_label_map(labels@, kept_labels(all.take(0))));
    }
    while i < given.len()
        invariant
            all == label_views(given@),
            i <= given@.len(),
            begins_with("__name__"@, "__"@),
            metric is Some == lookup(all.take(i as int), "__name__"@) is Some,
            metric is Some ==> metric->0@ == lookup(all.take(i as int), "__name__"@)->0,
            is_label_map(labels@, kept_labels(all.take(i as int))),
        decreases given@.len() - i,
    {
        let l = &given[i];
        proof {
            let t = all.take(i as int + 1);
            assert(t.drop_last() =~= all.take(i as int));
            assert(t.last() == (l.name@, l.value@));
        }
        if same_text(l.name.as_str(), "__name__") {
            metric = Some(l.value.clone());
        } else if !starts_with(l.name.as_str(), "__") {
            labels.insert(l.name.clone(), l.value.clone());
            proof {
                let k = kept_labels(all.take(i as int + 1));
                assert(k.drop_last() =~= kept_labels(all.take(i as int)));
                assert(k.last() == (l.name@, l.value@));
            }
        }
        i += 1;
    }
    assert(all.take(i as int) =~= all);
    proof {
        lemma_label_map(labels@, kept_labels(all));
    }
    (metric, labels)
}

/// Flatten a request into the samples that the other ingest path also takes, so
/// that both go through one validation and one log.
///
/// A series without a `__name__` label, or with an empty one, is dropped and
/// counted. A label that starts with `__`, other than `__name__`, is dropped.
pub fn flatten_write_request(req: WriteRequest) -> (r: (Vec<RawSample>, ConversionStats))
    ensures
        raw_views(r.0@) == flat(series_views(req.timeseries@)),
        r.1.series_total == req.timeseries@.len(),
        r.1.series_dropped_no_name == nameless(series_views(req.timeseries@)),
        r.1.samples_emitted == r.0@.len(),
{
    let ghost all = series_views(req.timeseries@);
    let total: usize = req.timeseries.len();
    let mut out: Vec<RawSample> = Vec::new();
    let mut dropped: usize = 0;
    let mut i: usize = 0;
    assert(raw_views(out@) =~= flat(all.take(0)));
    while i < total
        invariant
            all == series_views(req.timeseries@),
            total == req.timeseries@.len(),
            i <= total,
            dropped <= i,
            raw_views(out@) == flat(all.take(i as int)),
            dropped == nameless(all.take(i as int)),
        decreases total - i,
    {
        let ts = &req.timeseries[i];
        let ghost view = ts@;
        proof {
            let t = all.take(i as int + 1);
            assert(t.drop_last() =~= all.take(i as int));
            assert(t.last() == view);
        }
        let (name, labels) = read_labels(&ts.labels);
        let metric: Option<String> = match name {
            Some(m) => if m.as_str().is_empty() {
                None
            } else {
                Some(m)
            },
            None => None,
        };
        match metric {
            None => {
                dropped += 1;
                assert(raw_views(out@) =~= flat(all.take(i as int)) + flat_series(view));
            },
            Some(m) => {
                let ghost done = raw_views(out@);
                let n: usize = ts.samples.len();
                let mut j: usize = 0;
                assert(raw_views(out@) =~= done + flat_series(view).take(0));
                while j < n
                    invariant
                        n == ts.samples@.len(),
                        j <= n,
                        view == ts@,
                        metric_name(view.labels) == Some(m@),
                        labels@ == label_map(kept_labels(view.labels)),
                        raw_views(out@) == done + flat_series(view).take(j as int),
                    decreases n - j,
                {
                    let s = ts.samples[j];
                    let ghost before = out@;
                    out.push(
                        RawSample {
                            metric: m.clone(),
                            labels: labels.clone(),
                            ts: s.timestamp,
                            value: s.value,
                        },
                    );
                    j += 1;
                    proof {
                        assert(raw_views(out@) =~= raw_views(before).push(
                            flat_series(view)[j as int - 1],
                        ));
                        assert(raw_views(out@) =~= done + flat_series(view).take(j as int));
                    }
                }
                assert(flat_series(view).take(n as int) =~= flat_series(view));
            },
        }
        i += 1;
    }
    assert(all.take(total as int) =~= all);
    let emitted: usize = out.len();
    (
        out,
        ConversionStats {
            series_total: total,
            series_dropped_no_name: dropped,
            samples_emitted: emitted,
        },
    )
}

proof fn lemma_kept_not_reserved(labels: Pairs, name: Seq<char>)
    requires
        begins_with(name, "__"@),
    ensures
        lookup(kept_labels(labels), name) is None,
    decreases labels.len(),
{
    if labels.len() > 0 {
        lemma_kept_not_reserved(labels.drop_last(), name);
        let k = kept_labels(labels);
        if !begins_with(labels.last().0, "__"@) {
            assert(k.drop_last() =~= kept_labels(labels.drop_last()));
            assert(k.last() == labels.last());
        }
    }
}

/// No sample that comes out of a request carries a reserved label, and none has
/// an empty metric name.
pub proof fn law_no_reserved_labels(s: Seq<SeriesView>, i: int, name: Seq<char>)
    requires
        0 <= i < flat(s).len(),
        begins_with(name, "__"@),
    ensures
        lookup(flat(s)[i].labels, name) is None,
        flat(s)[i].metric.len() > 0,
    decreases s.len(),
{
    let rest = flat(s.drop_last());
    if i < rest.len() {
        law_no_reserved_labels(s.drop_last(), i, name);
        assert(flat(s)[i] == rest[i]);
    } else {
        let last = flat_series(s.last());
        assert(flat(s)[i] == last[i - rest.len()]);
        let kept = kept_labels(s.last().labels);
        lemma_kept_not_reserved(s.last().labels, name);
        lemma_label_map_exists(kept);
        assert(lookup(label_map(kept), name) == lookup(kept, name));
    }
}

/// How many samples the series with a name have.
pub open spec fn named_samples(s: Seq<SeriesView>) -> nat
    decreases s.len(),
{
    if s.len() == 0 {
        0
    } else {
        named_samples(s.drop_last()) + if metric_name(s.last().labels) is Some {
            s.last().samples.len()
        } else {
            0
        }
    }
}

/// Every sample of every series that has a name comes out, and no other.
pub proof fn law_every_named_sample_comes_out(s: Seq<SeriesView>)
    ensures
        flat(s).len() == named_samples(s),
        nameless(s) <= s.len(),
    decreases s.len(),
{
    if s.len() > 0 {
        law_every_named_sample_comes_out(s.drop_last());
    }
}

} // verus!
