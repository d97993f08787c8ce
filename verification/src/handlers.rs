//! What the HTTP endpoints decide: how many rows of a query are returned, and
//! which samples of a batch are taken.

use vstd::prelude::*;
use vstd::string::StringExecFns;
use crate::ingest::buffer::{sample_views, SampleView};
use crate::ingest::remote_write::{raw_views, RawView};
use crate::ingest::types::{RawSample, RejectedSample, ValidatedSample};
use crate::ingest::validate::{
    ms_to_us, refusal, refusal_text, series_id_of, validate, Refusal, GRACE_FUTURE_MS,
    GRACE_PAST_MS,
};
use crate::json::Json;
use crate::prometheus::error::{BAD_REQUEST, INTERNAL_SERVER_ERROR};

verus! {

/// HTTP 503.
pub const SERVICE_UNAVAILABLE: u16 = 503;

// ---------- SQL ----------

/// Body of `POST /api/v1/sql`.
#[derive(Debug)]
pub struct SqlRequest {
    pub sql: String,
    pub max_rows: usize,
}

/// The number of rows a query returns at most where it does not say.
pub fn default_max_rows() -> (r: usize)
    ensures
        r == 100_000,
{
    100_000
}

/// The answer to a query.
#[derive(Debug)]
pub struct SqlResponse {
    pub columns: Vec<ColumnMeta>,
    pub rows: Vec<Vec<(String, Json)>>,
    pub meta: Meta,
}

/// A column of an answer: its name, and the name of its type.
#[derive(Debug)]
pub struct ColumnMeta {
    pub name: String,
    pub data_type: String,
}

/// How an answer came about.
#[derive(Debug)]
pub struct Meta {
    pub row_count: usize,
    pub elapsed_ms: u128,
    pub truncated: bool,
}

/// Which rows of a result are returned: of each batch, one after another, so
/// many from its front.
#[derive(Debug)]
pub struct Trim {
    pub kept: Vec<usize>,
    pub row_count: usize,
    pub truncated: bool,
}

/// The sum of a list of sizes.
pub open spec fn total_rows(sizes: Seq<usize>) -> nat
    decreases sizes.len(),
{
    if sizes.len() == 0 {
        0
    } else {
        total_rows(sizes.drop_last()) + sizes.last() as nat
    }
}

/// How many rows a result has once it is cut to `max_rows`.
pub open spec fn rows_within(sizes: Seq<usize>, max_rows: int) -> int {
    if total_rows(sizes) <= max_rows {
        total_rows(sizes) as int
    } else {
        max_rows
    }
}

/// How many rows are kept of each batch: as many as it adds to the result of the
/// batches before it, cut to `max_rows`.
pub open spec fn kept_rows(sizes: Seq<usize>, max_rows: int) -> Seq<usize> {
    Seq::new(
        sizes.len(),
        |i: int|
            (rows_within(sizes.take(i + 1), max_rows) - rows_within(
                sizes.take(i),
                max_rows,
            )) as usize,
    )
}

/// Cut a result to at most `max_rows` rows. It is marked as truncated where it
/// has more.
pub fn trim_rows(sizes: &Vec<usize>, max_rows: usize) -> (r: Trim)
    ensures
        r.kept@ == kept_rows(sizes@, max_rows as int),
        r.row_count == rows_within(sizes@, max_rows as int),
        r.truncated == (total_rows(sizes@) > max_rows),
{
    let mut kept: Vec<usize> = Vec::new();
    let mut row_count: usize = 0;
    let mut truncated: bool = false;
    let mut i: usize = 0;
    assert(sizes@.take(0) =~= Seq::empty());
    while i < sizes.len()
        invariant
            i <= sizes@.len(),
            kept@.len() == i,
            forall|j: int|
                0 <= j < i ==> kept@[j] == #[trigger] kept_rows(sizes@, max_rows as int)[j],
            row_count == rows_within(sizes@.take(i as int), max_rows as int),
            row_count <= max_rows,
            truncated == (total_rows(sizes@.take(i as int)) > max_rows),
        decreases sizes@.len() - i,
    {
        let size: usize = sizes[i];
        let need: usize = max_rows - row_count;
        proof {
            let t = sizes@.take(i as int + 1);
            assert(t.drop_last() =~= sizes@.take(i as int));
            assert(t.last() == size);
        }
        if size > need {
            truncated = true;
            kept.push(need);
            row_count = max_rows;
        } else {
            kept.push(size);
            row_count = row_count + size;
        }
        i += 1;
    }
    assert(sizes@.take(i as int) =~= sizes@);
    assert(kept@ =~= kept_rows(sizes@, max_rows as int));
    Trim { kept, row_count, truncated }
}

/// A result of no more rows than were asked for is returned whole.
pub proof fn law_what_fits_is_returned(sizes: Seq<usize>, max_rows: int)
    requires
        total_rows(sizes) <= max_rows,
    ensures
        kept_rows(sizes, max_rows) == sizes,
{
    assert forall|i: int| 0 <= i < sizes.len() implies #[trigger] kept_rows(sizes, max_rows)[i]
        == sizes[i] by {
        lemma_total_of_front(sizes, i + 1);
        assert(sizes.take(i + 1).drop_last() =~= sizes.take(i));
        assert(sizes.take(i + 1).last() == sizes[i]);
    }
    assert(kept_rows(sizes, max_rows) =~= sizes);
}

/// The rows that are kept are the first ones: of each batch no more than it has,
/// nothing of the batches after one that was cut, and in all as many as the
/// result is said to have.
pub proof fn law_the_first_rows_are_kept(sizes: Seq<usize>, max_rows: int)
    requires
        0 <= max_rows <= usize::MAX,
    ensures
        kept_rows(sizes, max_rows).len() == sizes.len(),
        forall|i: int|
            0 <= i < sizes.len() ==> #[trigger] kept_rows(sizes, max_rows)[i] <= sizes[i],
        forall|i: int, j: int|
            0 <= i < j < sizes.len() && (#[trigger] kept_rows(sizes, max_rows)[i]) < sizes[i]
                ==> #[trigger] kept_rows(sizes, max_rows)[j] == 0,
        total_rows(kept_rows(sizes, max_rows)) == rows_within(sizes, max_rows),
    decreases sizes.len(),
{
    let kept = kept_rows(sizes, max_rows);
    assert forall|i: int| 0 <= i < sizes.len() implies #[trigger] kept[i] <= sizes[i] && kept[i]
        == rows_within(sizes.take(i + 1), max_rows) - rows_within(sizes.take(i), max_rows) by {
        assert(sizes.take(i + 1).drop_last() =~= sizes.take(i));
        assert(sizes.take(i + 1).last() == sizes[i]);
    }
    assert forall|i: int, j: int|
        0 <= i < j < sizes.len() && (#[trigger] kept[i]) < sizes[i] implies #[trigger] kept[j]
        == 0 by {
        assert(sizes.take(i + 1).drop_last() =~= sizes.take(i));
        assert(sizes.take(i + 1).last() == sizes[i]);
        assert(total_rows(sizes.take(i + 1)) > max_rows);
        assert(sizes.take(j).take(i + 1) =~= sizes.take(i + 1));
        lemma_total_of_front(sizes.take(j), i + 1);
        assert(sizes.take(j + 1).take(j) =~= sizes.take(j));
        lemma_total_of_front(sizes.take(j + 1), j);
    }
    if sizes.len() == 0 {
        assert(kept =~= Seq::empty());
    } else {
        let front = sizes.drop_last();
        law_the_first_rows_are_kept(front, max_rows);
        assert forall|i: int| 0 <= i < front.len() implies #[trigger] kept_rows(
            front,
            max_rows,
        )[i] == kept[i] by {
            assert(front.take(i) =~= sizes.take(i));
            assert(front.take(i + 1) =~= sizes.take(i + 1));
        }
        assert(kept.drop_last() =~= kept_rows(front, max_rows));
        assert(sizes.take(sizes.len() as int) =~= sizes);
        assert(sizes.take(sizes.len() - 1) =~= front);
        assert(kept.last() == kept[sizes.len() - 1]);
    }
}

proof fn lemma_total_of_front(sizes: Seq<usize>, n: int)
    requires
        0 <= n <= sizes.len(),
    ensures
        total_rows(sizes.take(n)) <= total_rows(sizes),
    decreases sizes.len(),
{
    if n == sizes.len() {
        assert(sizes.take(n) =~= sizes);
    } else {
        lemma_total_of_front(sizes.drop_last(), n);
        assert(sizes.drop_last().take(n) =~= sizes.take(n));
    }
}

// ---------- ingest ----------

/// What became of a sample: taken, or refused and why.
pub open spec fn verdict(raw: RawView, now_ms: i64) -> Result<SampleView, Refusal> {
    match refusal(raw.metric, raw.labels, raw.ts, raw.value, now_ms) {
        Some(e) => Err(e),
        None => Ok(
            SampleView {
                series_id: series_id_of(raw.metric, raw.labels),
                metric: raw.metric,
                labels: raw.labels,
                ts_us: ms_to_us(raw.ts as int) as i64,
                value: raw.value,
            },
        ),
    }
}

/// The samples of a batch that are taken.
pub open spec fn taken(raws: Seq<RawView>, now_ms: i64) -> Seq<SampleView>
    decreases raws.len(),
{
    if raws.len() == 0 {
        Seq::empty()
    } else {
        let rest = taken(raws.drop_last(), now_ms);
        match verdict(raws.last(), now_ms) {
            Ok(s) => rest.push(s),
            Err(_) => rest,
        }
    }
}

/// The samples of a batch that are refused: their places and why.
pub open spec fn refused(raws: Seq<RawView>, now_ms: i64) -> Seq<(int, Refusal)>
    decreases raws.len(),
{
    if raws.len() == 0 {
        Seq::empty()
    } else {
        let rest = refused(raws.drop_last(), now_ms);
        match verdict(raws.last(), now_ms) {
            Ok(_) => rest,
            Err(e) => rest.push((raws.len() - 1, e)),
        }
    }
}

/// The views of a list of refused samples: their places and the reasons' texts.
pub open spec fn rejected_views(s: Seq<RejectedSample>) -> Seq<(int, Seq<char>)> {
    s.map_values(|r: RejectedSample| (r.index as int, r.reason@))
}

/// The refusals with their reasons as text.
pub open spec fn reasons(s: Seq<(int, Refusal)>) -> Seq<(int, Seq<char>)> {
    s.map_values(|e: (int, Refusal)| (e.0, refusal_text(e.1)))
}

/// Check the samples of a batch one by one. A sample that is refused does not
/// keep the others from being taken.
pub fn validate_batch(raws: Vec<RawSample>, now_ms: i64) -> (r: (
    Vec<ValidatedSample>,
    Vec<RejectedSample>,
))
    requires
        i64::MIN + GRACE_PAST_MS <= now_ms <= i64::MAX - GRACE_FUTURE_MS,
    ensures
        sample_views(r.0@) == taken(raw_views(raws@), now_ms),
        rejected_views(r.1@) == reasons(refused(raw_views(raws@), now_ms)),
        r.0@.len() + r.1@.len() == raws@.len(),
{
    let ghost all = raw_views(raws@);
    let len: usize = raws.len();
    let mut accepted: Vec<ValidatedSample> = Vec::new();
    let mut rejected: Vec<RejectedSample> = Vec::new();
    let mut i: usize = 0;
    proof {
        assert(sample_views(accepted@) =~= taken(all.take(0), now_ms));
        assert(rejected_views(rejected@) =~= reasons(refused(all.take(0), now_ms)));
    }
    for raw in it: raws
        invariant
            it.seq() == raws@,
            all == raw_views(raws@),
            len == raws@.len(),
            i == it.index(),
            i64::MIN + GRACE_PAST_MS <= now_ms <= i64::MAX - GRACE_FUTURE_MS,
            sample_views(accepted@) == taken(all.take(i as int), now_ms),
            rejected_views(rejected@) == reasons(refused(all.take(i as int), now_ms)),
            accepted@.len() + rejected@.len() == i,
            all.take(all.len() as int) =~= all,
    {
        let ghost a0 = accepted@;
        let ghost r0 = rejected@;
        let ghost raw0 = raw@;
        proof {
            let t = all.take(i as int + 1);
            assert(t.drop_last() =~= all.take(i as int));
            assert(t.last() == raw0);
        }
        match validate(raw, now_ms) {
            Ok(v) => {
                let ghost vv = v@;
                accepted.push(v);
                assert(sample_views(accepted@) =~= sample_views(a0).push(vv));
            },
            Err(e) => {
                let ghost ev = e@;
                let reason = e.message();
                rejected.push(RejectedSample { index: i, reason });
                proof {
                    assert(rejected_views(rejected@) =~= rejected_views(r0).push(
                        (i as int, refusal_text(ev)),
                    ));
                    assert(reasons(refused(all.take(i as int + 1), now_ms)) =~= reasons(
                        refused(all.take(i as int), now_ms),
                    ).push((i as int, refusal_text(ev))));
                }
            },
        }
        i += 1;
    }
    (accepted, rejected)
}

/// What is appended of the samples that were taken: all of them, and nothing,
/// not even an empty record, where there are none.
pub fn to_append(taken: Vec<ValidatedSample>) -> (r: Option<Vec<ValidatedSample>>)
    ensures
        r == if taken@.len() == 0 {
            None
        } else {
            Some(taken)
        },
{
    if taken.len() == 0 {
        None
    } else {
        Some(taken)
    }
}

/// How many samples of a batch were refused, and why the first of them was.
pub fn first_rejection(rejected: &Vec<RejectedSample>) -> (r: (usize, Option<String>))
    ensures
        r.0 == rejected@.len(),
        r.1 is Some == (rejected@.len() > 0),
        r.1 is Some ==> r.1->0@ == rejected@[0].reason@,
{
    if rejected.len() == 0 {
        (0, None)
    } else {
        (rejected.len(), Some(rejected[0].reason.clone()))
    }
}

/// Every sample of a batch is either taken or refused.
pub proof fn law_every_sample_is_answered(raws: Seq<RawView>, now_ms: i64)
    ensures
        taken(raws, now_ms).len() + refused(raws, now_ms).len() == raws.len(),
    decreases raws.len(),
{
    if raws.len() > 0 {
        law_every_sample_is_answered(raws.drop_last(), now_ms);
    }
}

/// Whether a sample is taken depends on that sample alone: a batch is taken as
/// its parts would be.
pub proof fn law_refusals_do_not_spread(a: Seq<RawView>, b: Seq<RawView>, now_ms: i64)
    ensures
        taken(a + b, now_ms) == taken(a, now_ms) + taken(b, now_ms),
    decreases b.len(),
{
    if b.len() == 0 {
        assert(a + b =~= a);
        assert(taken(a, now_ms) + taken(b, now_ms) =~= taken(a, now_ms));
    } else {
        law_refusals_do_not_spread(a, b.drop_last(), now_ms);
        assert((a + b).drop_last() =~= a + b.drop_last());
        assert((a + b).last() == b.last());
        assert(taken(a + b, now_ms) =~= taken(a, now_ms) + taken(b, now_ms));
    }
}

// ---------- errors ----------

/// Why a request failed, with the HTTP status it is answered with.
#[derive(Debug)]
pub struct ApiError {
    pub status: u16,
    pub message: String,
}

impl ApiError {
    /// The server is at fault.
    pub fn internal(message: String) -> (r: ApiError)
        ensures
            r.status == INTERNAL_SERVER_ERROR,
            r.message@ == message@,
    {
        ApiError { status: INTERNAL_SERVER_ERROR, message }
    }

    /// The request is at fault.
    pub fn bad_request(message: String) -> (r: ApiError)
        ensures
            r.status == BAD_REQUEST,
            r.message@ == message@,
    {
        ApiError { status: BAD_REQUEST, message }
    }

    /// The server cannot take the request now; the sender may try again.
    pub fn unavailable(message: String) -> (r: ApiError)
        ensures
            r.status == SERVICE_UNAVAILABLE,
            r.message@ == message@,
    {
        ApiError { status: SERVICE_UNAVAILABLE, message }
    }
}

/// What went wrong in `POST /api/v1/sql`, with its cause.
pub enum SqlFailure {
    /// The statement was not understood.
    Plan(String),
    /// It could not be run.
    Execute(String),
}

/// The status and the message of a failed SQL request. The statement is at
/// fault.
pub open spec fn sql_answer(f: SqlFailure) -> (u16, Seq<char>) {
    match f {
        SqlFailure::Plan(e) => (BAD_REQUEST, "sql parse/plan: "@ + e@),
        SqlFailure::Execute(e) => (BAD_REQUEST, "sql execute: "@ + e@),
    }
}

/// How a failed SQL request is answered.
pub fn sql_failure(f: SqlFailure) -> (r: ApiError)
    ensures
        (r.status, r.message@) == sql_answer(f),
{
    match f {
        SqlFailure::Plan(e) => ApiError::bad_request(told("sql parse/plan: ", e.as_str())),
        SqlFailure::Execute(e) => ApiError::bad_request(told("sql execute: ", e.as_str())),
    }
}

/// What went wrong in `POST /api/v1/ingest`, with its cause. A sample that is
/// refused is no failure of the request.
pub enum IngestFailure {
    /// The buffer is full.
    Backpressure(String),
    /// The task that appends did not finish.
    Task(String),
    /// The samples could not be logged.
    Append(String),
}

/// The status and the message of a failed ingest request.
pub open spec fn ingest_answer(f: IngestFailure) -> (u16, Seq<char>) {
    match f {
        IngestFailure::Backpressure(e) => (SERVICE_UNAVAILABLE, e@),
        IngestFailure::Task(e) => (INTERNAL_SERVER_ERROR, "ingest task join: "@ + e@),
        IngestFailure::Append(e) => (INTERNAL_SERVER_ERROR, "ingest: "@ + e@),
    }
}

/// How a failed ingest request is answered.
pub fn ingest_failure(f: IngestFailure) -> (r: ApiError)
    ensures
        (r.status, r.message@) == ingest_answer(f),
{
    match f {
        IngestFailure::Backpressure(e) => ApiError::unavailable(e),
        IngestFailure::Task(e) => ApiError::internal(told("ingest task join: ", e.as_str())),
        IngestFailure::Append(e) => ApiError::internal(told("ingest: ", e.as_str())),
    }
}

/// What went wrong in `POST /api/v1/write`, with its cause.
pub enum RemoteWriteFailure {
    /// The buffer is full.
    Backpressure(String),
    /// The task that decodes did not finish.
    DecodeTask(String),
    /// The body is no remote-write request.
    Decode(String),
    /// The task that appends did not finish.
    AppendTask(String),
    /// The samples could not be logged.
    Append(String),
}

/// The status and the message of a failed remote write. Where the samples could
/// not be logged the sender is to try again.
pub open spec fn remote_write_answer(f: RemoteWriteFailure) -> (u16, Seq<char>) {
    match f {
        RemoteWriteFailure::Backpressure(e) => (SERVICE_UNAVAILABLE, e@),
        RemoteWriteFailure::DecodeTask(e) => (
            INTERNAL_SERVER_ERROR,
            "remote_write task join: "@ + e@,
        ),
        RemoteWriteFailure::Decode(e) => (BAD_REQUEST, "remote_write decode: "@ + e@),
        RemoteWriteFailure::AppendTask(e) => (
            INTERNAL_SERVER_ERROR,
            "remote_write ingest task join: "@ + e@,
        ),
        RemoteWriteFailure::Append(e) => (SERVICE_UNAVAILABLE, "remote_write ingest: "@ + e@),
    }
}

/// How a failed remote write is answered.
pub fn remote_write_failure(f: RemoteWriteFailure) -> (r: ApiError)
    ensures
        (r.status, r.message@) == remote_write_answer(f),
{
    match f {
        RemoteWriteFailure::Backpressure(e) => ApiError::unavailable(e),
        RemoteWriteFailure::DecodeTask(e) => ApiError::internal(
            told("remote_write task join: ", e.as_str()),
        ),
        RemoteWriteFailure::Decode(e) => ApiError::bad_request(
            told("remote_write decode: ", e.as_str()),
        ),
        RemoteWriteFailure::AppendTask(e) => ApiError::internal(
            told("remote_write ingest task join: ", e.as_str()),
        ),
        RemoteWriteFailure::Append(e) => ApiError::unavailable(
            told("remote_write ingest: ", e.as_str()),
        ),
    }
}

fn told(what: &str, cause: &str) -> (r: String)
    ensures
        r@ == what@ + cause@,
{
    let mut r = what.to_string();
    r.append(cause);
    r
}

} // verus!
