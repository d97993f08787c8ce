//! Request and response shapes, and the validated sample.

use vstd::prelude::*;
use crate::labels::Labels;

verus! {

/// Body of `POST /api/v1/ingest`.
#[derive(Debug)]
pub struct IngestRequest {
    pub samples: Vec<RawSample>,
}

/// One sample as it appears on the wire. `ts` is **milliseconds** since the
/// Unix epoch; `value` is the bit pattern of a double.
#[derive(Debug)]
pub struct RawSample {
    pub metric: String,
    pub labels: Labels,
    pub ts: i64,
    pub value: u64,
}

/// A sample that has cleared validation. `ts_us` is **microseconds** since the
/// Unix epoch; the labels are walked in name order, which matters because
/// `series_id` is a hash over them in that order. `value` is the bit pattern of
/// a double.
#[derive(Debug)]
pub struct ValidatedSample {
    pub series_id: i64,
    pub metric: String,
    pub labels: Labels,
    pub ts_us: i64,
    pub value: u64,
}

impl Clone for ValidatedSample {
    fn clone(&self) -> (r: ValidatedSample)
        ensures
            r.series_id == self.series_id,
            r.metric@ == self.metric@,
            r.labels@ == self.labels@,
            r.ts_us == self.ts_us,
            r.value == self.value,
    {
        ValidatedSample {
            series_id: self.series_id,
            metric: self.metric.clone(),
            labels: self.labels.clone(),
            ts_us: self.ts_us,
            value: self.value,
        }
    }
}

/// Successful (HTTP 200) response. Some samples may have been rejected
/// individually; that is not a request-level error.
#[derive(Debug)]
pub struct IngestResponse {
    pub accepted: usize,
    pub rejected: Vec<RejectedSample>,
}

/// One sample that was refused, and why.
#[derive(Debug)]
pub struct RejectedSample {
    /// Index of the offending entry in the request's `samples` array.
    pub index: usize,
    pub reason: String,
}

} // verus!
