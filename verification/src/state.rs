//! What the application sets up on start: the names it queries by, the helper
//! views, and the series that are known already.

use vstd::prelude::*;

verus! {

/// The name the catalog is registered under: tables are
/// `iceberg.skaldberg.series` and `iceberg.skaldberg.samples`.
pub const DF_CATALOG_NAME: &'static str = "iceberg";

/// The statement that lists the ids of the series that are catalogued.
pub const KNOWN_SERIES_SQL: &'static str = "SELECT series_id FROM iceberg.skaldberg.series";

/// The view that joins samples to series, so that callers need not write the
/// join by hand.
pub const SK_METRIC_VIEW: &'static str = "
        CREATE OR REPLACE VIEW sk_metric AS
        SELECT sa.series_id, sa.timestamp, sa.value, s.metric_name, s.labels
        FROM iceberg.skaldberg.samples sa
        JOIN iceberg.skaldberg.series s ON sa.series_id = s.series_id
        ";

/// The view of the per-second derivative within each series.
pub const SK_RATE_OF_VIEW: &'static str = "
        CREATE OR REPLACE VIEW sk_rate_of AS
        SELECT
          series_id,
          timestamp,
          metric_name,
          labels,
          (value - LAG(value) OVER w) /
            NULLIF(
              EXTRACT(EPOCH FROM (timestamp - LAG(timestamp) OVER w)),
              0
            ) AS value_per_sec
        FROM sk_metric
        WINDOW w AS (PARTITION BY series_id ORDER BY timestamp)
        ";

/// The ids that are there, in the order they came.
pub open spec fn present_ids(rows: Seq<Option<i64>>) -> Seq<i64>
    decreases rows.len(),
{
    if rows.len() == 0 {
        Seq::empty()
    } else {
        let rest = present_ids(rows.drop_last());
        match rows.last() {
            Some(id) => rest.push(id),
            None => rest,
        }
    }
}

/// The ids of the series that are catalogued.
pub fn known_series(rows: &Vec<Option<i64>>) -> (r: Vec<i64>)
    ensures
        r@ == present_ids(rows@),
{
    let mut ids: Vec<i64> = Vec::new();
    let mut i: usize = 0;
    assert(ids@ =~= present_ids(rows@.take(0)));
    while i < rows.len()
        invariant
            i <= rows@.len(),
            ids@ == present_ids(rows@.take(i as int)),
        decreases rows@.len() - i,
    {
        proof {
            assert(rows@.take(i as int + 1).drop_last() =~= rows@.take(i as int));
        }
        if let Some(id) = rows[i] {
            ids.push(id);
        }
        i += 1;
    }
    assert(rows@.take(i as int) =~= rows@);
    ids
}

} // verus!
