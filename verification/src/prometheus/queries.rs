//! The SQL statements that query plans run.

use vstd::prelude::*;
use vstd::string::StringExecFns;
use crate::prometheus::ast::{Grouping, Selector, SelectorView};
use crate::prometheus::plan::{compares, AggOp, BinOp, RangeFnOp};
use crate::prometheus::sql::{
    agg_call, agg_call_sql, aggregate_group_keys, binop_value, binop_value_sql, cmp_op_sql,
    comparison, escaped, group_keys, label_columns, label_exprs, label_texts, predicates,
    select_labels, selector_predicates, sql_escape, where_conditions, where_list, LOOKBACK_US,
    NAME_LABEL,
};
use crate::text::{decimal, join, joined, push_decimal, same_text, texts};

verus! {

/// The samples with their series.
pub const FROM_JOINED: &'static str = "FROM iceberg.skaldberg.samples sa \
    JOIN iceberg.skaldberg.series s ON sa.series_id = s.series_id ";

/// How the samples of a window are numbered per series, the latest first.
pub const LATEST_FIRST: &'static str =
    "ROW_NUMBER() OVER (PARTITION BY sa.series_id ORDER BY sa.timestamp DESC) AS rn ";

// ---------- selectors ----------

/// The statement that fetches a selector's samples.
pub open spec fn selector_text(sel: SelectorView, from_us: i64, to_us: i64) -> Seq<char> {
    "SELECT s.metric_name, s.labels, sa.timestamp, sa.value\n         FROM iceberg.skaldberg.samples sa\n         JOIN iceberg.skaldberg.series s ON sa.series_id = s.series_id\n          WHERE "@
        + where_conditions(sel, from_us, to_us)
        + "\n         ORDER BY s.metric_name, sa.timestamp"@
}

/// The statement that fetches a selector's samples between two instants, both
/// included.
pub fn selector_sql(sel: &Selector, from_us: i64, to_us: i64) -> (r: String)
    ensures
        r@ == selector_text(sel@, from_us, to_us),
{
    let mut r = "SELECT s.metric_name, s.labels, sa.timestamp, sa.value\n         FROM iceberg.skaldberg.samples sa\n         JOIN iceberg.skaldberg.series s ON sa.series_id = s.series_id\n          WHERE ".to_string();
    r.append(where_list(sel, from_us, to_us).as_str());
    r.append("\n         ORDER BY s.metric_name, sa.timestamp");
    r
}

/// The statement that fetches what an instant selector looks back over.
pub fn instant_selector_sql(sel: &Selector, time_us: i64) -> (r: String)
    requires
        time_us >= i64::MIN + LOOKBACK_US,
    ensures
        r@ == selector_text(sel@, (time_us - LOOKBACK_US) as i64, time_us),
{
    selector_sql(sel, time_us - LOOKBACK_US, time_us)
}

// ---------- range functions ----------

/// The samples of the window. Values and timestamps are projected anew, so that
/// the columns lose the field metadata that window functions trip over.
pub const BASE: &'static str = "WITH base AS ( \
    SELECT sa.series_id, \
    CAST(sa.timestamp AS BIGINT) AS ts_us, \
    sa.value + 0.0 AS value ";

/// Reset-adjusted differences, summed per series.
pub const TOTALS: &'static str = " ), \
    adjusted AS ( \
    SELECT series_id, ts_us, value, \
    LAG(value) OVER w AS prev_v \
    FROM base \
    WINDOW w AS (PARTITION BY series_id ORDER BY ts_us) \
    ), \
    agg AS ( \
    SELECT series_id, \
    SUM(CASE \
    WHEN prev_v IS NULL THEN CAST(0.0 AS DOUBLE) \
    WHEN value >= prev_v THEN value - prev_v \
    ELSE value \
    END) AS total_delta, \
    MAX(ts_us) AS last_ts_us, \
    MIN(ts_us) AS first_ts_us, \
    COUNT(*) AS n \
    FROM adjusted \
    GROUP BY series_id \
    ) \
    SELECT s.metric_name, s.labels, (";

/// The end of the statement over the sums.
pub const TOTALS_END: &'static str = ") AS v \
    FROM agg a \
    JOIN iceberg.skaldberg.series s ON a.series_id = s.series_id \
    WHERE a.n >= 2 AND a.last_ts_us > a.first_ts_us";

/// The latest sample of each series with the one before it.
pub const LAST_TWO: &'static str = " ), \
    ranked AS ( \
    SELECT series_id, ts_us, value, \
    LAG(value) OVER w AS prev_v, \
    LAG(ts_us) OVER w AS prev_ts_us, \
    ROW_NUMBER() OVER (PARTITION BY series_id ORDER BY ts_us DESC) AS rn_desc, \
    COUNT(*) OVER (PARTITION BY series_id) AS total_n \
    FROM base \
    WINDOW w AS (PARTITION BY series_id ORDER BY ts_us) \
    ) \
    SELECT s.metric_name, s.labels, \
    ((CASE WHEN value >= prev_v THEN value - prev_v ELSE value END) * 1000000.0 / (ts_us - prev_ts_us)) AS v \
    FROM ranked r \
    JOIN iceberg.skaldberg.series s ON r.series_id = s.series_id \
    WHERE r.rn_desc = 1 AND r.total_n >= 2 AND r.ts_us > r.prev_ts_us";

/// The first and the last sample of each series.
pub const ENDS: &'static str = " ), \
    ranked AS ( \
    SELECT series_id, ts_us, value, \
    ROW_NUMBER() OVER (PARTITION BY series_id ORDER BY ts_us ASC) AS rn_asc, \
    ROW_NUMBER() OVER (PARTITION BY series_id ORDER BY ts_us DESC) AS rn_desc, \
    COUNT(*) OVER (PARTITION BY series_id) AS total_n \
    FROM base \
    ), \
    endpoints AS ( \
    SELECT series_id, ts_us AS first_ts_us, value AS first_v, total_n FROM ranked WHERE rn_asc = 1 \
    ), \
    last_v AS ( \
    SELECT series_id, ts_us AS last_ts_us, value AS last_val FROM ranked WHERE rn_desc = 1 \
    ) \
    SELECT s.metric_name, s.labels, (l.last_val - e.first_v) AS v \
    FROM endpoints e \
    JOIN last_v l ON e.series_id = l.series_id \
    JOIN iceberg.skaldberg.series s ON e.series_id = s.series_id \
    WHERE e.total_n >= 2 AND l.last_ts_us > e.first_ts_us";

/// The statement that applies a range function to the samples that a `WHERE`
/// clause leaves:
///   - rate, increase: the reset-adjusted sum, for rate per second
///   - irate: the slope of the last two samples, reset-adjusted
///   - delta: last minus first, not adjusted
/// All of them ask of a series two samples or more, over a positive time span.
pub open spec fn range_fn_text(op: RangeFnOp, where_clause: Seq<char>) -> Seq<char> {
    let base = BASE@ + FROM_JOINED@ + where_clause;
    match op {
        RangeFnOp::Rate => base + TOTALS@
            + "total_delta * 1000000.0 / (last_ts_us - first_ts_us)"@ + TOTALS_END@,
        RangeFnOp::Increase => base + TOTALS@ + "total_delta"@ + TOTALS_END@,
        RangeFnOp::Irate => base + LAST_TWO@,
        RangeFnOp::Delta => base + ENDS@,
    }
}

/// The statement that applies a range function to the samples that a `WHERE`
/// clause leaves.
pub fn build_range_fn_sql(op: RangeFnOp, where_clause: &str) -> (r: String)
    ensures
        r@ == range_fn_text(op, where_clause@),
{
    let mut r = BASE.to_string();
    r.append(FROM_JOINED);
    r.append(where_clause);
    match op {
        RangeFnOp::Rate => {
            r.append(TOTALS);
            r.append("total_delta * 1000000.0 / (last_ts_us - first_ts_us)");
            r.append(TOTALS_END);
        },
        RangeFnOp::Increase => {
            r.append(TOTALS);
            r.append("total_delta");
            r.append(TOTALS_END);
        },
        RangeFnOp::Irate => {
            r.append(LAST_TWO);
        },
        RangeFnOp::Delta => {
            r.append(ENDS);
        },
    }
    r
}

/// The statement for a range function at one instant, over the window
/// `[time - range, time]`, both ends included.
pub fn instant_range_fn_sql(sel: &Selector, range_us: i64, op: RangeFnOp, time_us: i64) -> (r:
    String)
    requires
        i64::MIN <= time_us - range_us <= i64::MAX,
    ensures
        r@ == range_fn_text(
            op,
            "WHERE "@ + where_conditions(sel@, (time_us - range_us) as i64, time_us),
        ),
{
    let mut w = "WHERE ".to_string();
    w.append(where_list(sel, time_us - range_us, time_us).as_str());
    build_range_fn_sql(op, w.as_str())
}

// ---------- aggregations ----------

/// The statement of an instant aggregation: the latest sample of each series in
/// the lookback window, aggregated by the retained labels.
pub open spec fn instant_aggregate_text(
    sel: SelectorView,
    op: AggOp,
    keys: Seq<Seq<char>>,
    time_us: i64,
) -> Seq<char> {
    "WITH ws AS ( SELECT sa.series_id, sa.value, sa.timestamp, "@ + LATEST_FIRST@ + FROM_JOINED@
        + " WHERE "@ + where_conditions(sel, (time_us - LOOKBACK_US) as i64, time_us)
        + " ) SELECT "@ + label_columns(keys) + agg_call(op, "ws.value"@)
        + " AS agg_v FROM ws JOIN iceberg.skaldberg.series s ON ws.series_id = s.series_id WHERE ws.rn = 1"@
        + if keys.len() == 0 {
        Seq::empty()
    } else {
        " GROUP BY "@ + joined(label_texts(keys), ", "@)
    }
}

/// The statement of `<agg>(<selector>) [by (...)]` at one instant.
pub fn instant_aggregate_sql(
    sel: &Selector,
    op: AggOp,
    modifier: Option<&Grouping>,
    time_us: i64,
) -> (r: String)
    requires
        time_us >= i64::MIN + LOOKBACK_US,
    ensures
        r@ == instant_aggregate_text(sel@, op, group_keys(modifier), time_us),
{
    let keys = aggregate_group_keys(modifier);
    let exprs = label_exprs(&keys);
    let mut r = "WITH ws AS ( SELECT sa.series_id, sa.value, sa.timestamp, ".to_string();
    r.append(LATEST_FIRST);
    r.append(FROM_JOINED);
    r.append(" WHERE ");
    r.append(where_list(sel, time_us - LOOKBACK_US, time_us).as_str());
    r.append(" ) SELECT ");
    r.append(select_labels(&keys).as_str());
    r.append(agg_call_sql(op, "ws.value").as_str());
    r.append(
        " AS agg_v FROM ws JOIN iceberg.skaldberg.series s ON ws.series_id = s.series_id WHERE ws.rn = 1",
    );
    let mut tail = String::new();
    if keys.len() > 0 {
        tail.append(" GROUP BY ");
        tail.append(join(&exprs, ", ").as_str());
        assert(tail@ =~= " GROUP BY "@ + joined(label_texts(texts(keys@)), ", "@));
    } else {
        assert(tail@ =~= Seq::empty());
    }
    r.append(tail.as_str());
    r
}

/// The statement of a range aggregation: every timestamp's samples, aggregated
/// by the retained labels.
pub open spec fn range_aggregate_text(
    sel: SelectorView,
    op: AggOp,
    keys: Seq<Seq<char>>,
    start_us: i64,
    end_us: i64,
) -> Seq<char> {
    let labels = label_texts(keys);
    "SELECT sa.timestamp, "@ + label_columns(keys) + agg_call(op, "sa.value"@) + " AS agg_v "@
        + FROM_JOINED@ + " WHERE "@ + where_conditions(sel, start_us, end_us) + " GROUP BY "@
        + joined(seq!["sa.timestamp"@] + labels, ", "@) + " ORDER BY "@ + joined(
        labels.push("sa.timestamp"@),
        ", "@,
    )
}

fn with_timestamp_first(exprs: &Vec<String>) -> (r: Vec<String>)
    ensures
        texts(r@) == seq!["sa.timestamp"@] + texts(exprs@),
{
    let mut r: Vec<String> = Vec::new();
    r.push("sa.timestamp".to_string());
    let mut i: usize = 0;
    assert(texts(r@) =~= seq!["sa.timestamp"@] + texts(exprs@).take(0));
    while i < exprs.len()
        invariant
            i <= exprs@.len(),
            texts(r@) == seq!["sa.timestamp"@] + texts(exprs@).take(i as int),
        decreases exprs@.len() - i,
    {
        let ghost before = r@;
        r.push(exprs[i].clone());
        i += 1;
        assert(texts(r@) =~= texts(before).push(exprs@[i as int - 1]@));
        assert(texts(r@) =~= seq!["sa.timestamp"@] + texts(exprs@).take(i as int));
    }
    assert(texts(exprs@).take(i as int) =~= texts(exprs@));
    r
}

/// The statement of `<agg>(<selector>) [by (...)]` over a range.
pub fn range_aggregate_sql(
    sel: &Selector,
    op: AggOp,
    modifier: Option<&Grouping>,
    start_us: i64,
    end_us: i64,
) -> (r: String)
    ensures
        r@ == range_aggregate_text(sel@, op, group_keys(modifier), start_us, end_us),
{
    let keys = aggregate_group_keys(modifier);
    let mut exprs = label_exprs(&keys);
    let ghost labels = texts(exprs@);
    let group_cols = with_timestamp_first(&exprs);
    exprs.push("sa.timestamp".to_string());
    assert(texts(exprs@) =~= labels.push("sa.timestamp"@));
    let mut r = "SELECT sa.timestamp, ".to_string();
    r.append(select_labels(&keys).as_str());
    r.append(agg_call_sql(op, "sa.value").as_str());
    r.append(" AS agg_v ");
    r.append(FROM_JOINED);
    r.append(" WHERE ");
    r.append(where_list(sel, start_us, end_us).as_str());
    r.append(" GROUP BY ");
    r.append(join(&group_cols, ", ").as_str());
    r.append(" ORDER BY ");
    r.append(join(&exprs, ", ").as_str());
    r
}

// ---------- ranking ----------

/// The direction in which values are ranked.
pub open spec fn direction(top: bool) -> Seq<char> {
    if top {
        "DESC"@
    } else {
        "ASC"@
    }
}

fn order_dir(top: bool) -> (r: &'static str)
    ensures
        r@ == direction(top),
{
    if top {
        "DESC"
    } else {
        "ASC"
    }
}

/// The statement of an instant ranking: the latest sample of each series in the
/// lookback window, ranked within the retained labels (over all series where
/// there are none), cut after `n`. The series keep their name and labels.
pub open spec fn instant_topk_text(
    sel: SelectorView,
    n: usize,
    top: bool,
    keys: Seq<Seq<char>>,
    time_us: i64,
) -> Seq<char> {
    "WITH latest AS ( SELECT sa.series_id, sa.value, "@ + LATEST_FIRST@ + FROM_JOINED@ + " WHERE "@
        + where_conditions(sel, (time_us - LOOKBACK_US) as i64, time_us)
        + " ), ranked AS ( SELECT l.series_id, l.value, ROW_NUMBER() OVER ("@ + (if keys.len()
        == 0 {
        Seq::empty()
    } else {
        "PARTITION BY "@ + joined(label_texts(keys), ", "@) + " "@
    }) + "ORDER BY l.value "@ + direction(top)
        + ") AS rnk FROM latest l JOIN iceberg.skaldberg.series s ON l.series_id = s.series_id WHERE l.rn = 1 ) SELECT s.metric_name, s.labels, rk.value FROM ranked rk JOIN iceberg.skaldberg.series s ON rk.series_id = s.series_id WHERE rk.rnk <= "@
        + decimal(n as nat)
}

/// The statement of `topk(n, <selector>) [by (...)]` or `bottomk` at one instant;
/// none where nothing is to be kept.
pub fn instant_topk_sql(
    sel: &Selector,
    n: usize,
    top: bool,
    modifier: Option<&Grouping>,
    time_us: i64,
) -> (r: Option<String>)
    requires
        time_us >= i64::MIN + LOOKBACK_US,
    ensures
        n == 0 ==> r is None,
        n > 0 ==> r is Some && r->0@ == instant_topk_text(sel@, n, top, group_keys(modifier), time_us),
{
    if n == 0 {
        return None;
    }
    let keys = aggregate_group_keys(modifier);
    let exprs = label_exprs(&keys);
    let mut partition = String::new();
    if keys.len() > 0 {
        partition.append("PARTITION BY ");
        partition.append(join(&exprs, ", ").as_str());
        partition.append(" ");
        assert(partition@ =~= "PARTITION BY "@ + joined(label_texts(texts(keys@)), ", "@) + " "@);
    } else {
        assert(partition@ =~= Seq::empty());
    }
    let mut r = "WITH latest AS ( SELECT sa.series_id, sa.value, ".to_string();
    r.append(LATEST_FIRST);
    r.append(FROM_JOINED);
    r.append(" WHERE ");
    r.append(where_list(sel, time_us - LOOKBACK_US, time_us).as_str());
    r.append(" ), ranked AS ( SELECT l.series_id, l.value, ROW_NUMBER() OVER (");
    r.append(partition.as_str());
    r.append("ORDER BY l.value ");
    r.append(order_dir(top));
    r.append(
        ") AS rnk FROM latest l JOIN iceberg.skaldberg.series s ON l.series_id = s.series_id WHERE l.rn = 1 ) SELECT s.metric_name, s.labels, rk.value FROM ranked rk JOIN iceberg.skaldberg.series s ON rk.series_id = s.series_id WHERE rk.rnk <= ",
    );
    push_decimal(&mut r, n as u64);
    Some(r)
}

/// The statement of a range ranking: every timestamp's samples ranked within the
/// retained labels, so that each timestamp has its own cut.
pub open spec fn range_topk_text(
    sel: SelectorView,
    n: usize,
    top: bool,
    keys: Seq<Seq<char>>,
    start_us: i64,
    end_us: i64,
) -> Seq<char> {
    "WITH ranked AS ( SELECT sa.series_id, sa.timestamp, sa.value, ROW_NUMBER() OVER (PARTITION BY "@
        + joined(seq!["sa.timestamp"@] + label_texts(keys), ", "@) + " ORDER BY sa.value "@
        + direction(top) + ") AS rnk "@ + FROM_JOINED@ + " WHERE "@ + where_conditions(
        sel,
        start_us,
        end_us,
    )
        + " ) SELECT s.metric_name, s.labels, rk.timestamp, rk.value FROM ranked rk JOIN iceberg.skaldberg.series s ON rk.series_id = s.series_id WHERE rk.rnk <= "@
        + decimal(n as nat) + " ORDER BY s.metric_name, rk.timestamp"@
}

/// The statement of `topk(n, <selector>) [by (...)]` or `bottomk` over a range;
/// none where nothing is to be kept.
pub fn range_topk_sql(
    sel: &Selector,
    n: usize,
    top: bool,
    modifier: Option<&Grouping>,
    start_us: i64,
    end_us: i64,
) -> (r: Option<String>)
    ensures
        n == 0 ==> r is None,
        n > 0 ==> r is Some && r->0@ == range_topk_text(sel@, n, top, group_keys(modifier), start_us, end_us),
{
    if n == 0 {
        return None;
    }
    let keys = aggregate_group_keys(modifier);
    let exprs = label_exprs(&keys);
    let cols = with_timestamp_first(&exprs);
    let mut r =
        "WITH ranked AS ( SELECT sa.series_id, sa.timestamp, sa.value, ROW_NUMBER() OVER (PARTITION BY ".to_string();
    r.append(join(&cols, ", ").as_str());
    r.append(" ORDER BY sa.value ");
    r.append(order_dir(top));
    r.append(") AS rnk ");
    r.append(FROM_JOINED);
    r.append(" WHERE ");
    r.append(where_list(sel, start_us, end_us).as_str());
    r.append(
        " ) SELECT s.metric_name, s.labels, rk.timestamp, rk.value FROM ranked rk JOIN iceberg.skaldberg.series s ON rk.series_id = s.series_id WHERE rk.rnk <= ",
    );
    push_decimal(&mut r, n as u64);
    r.append(" ORDER BY s.metric_name, rk.timestamp");
    Some(r)
}

// ---------- a scalar and a selector ----------

/// The two operands, the scalar on the left or on the right.
pub open spec fn sides(scalar: Seq<char>, column: Seq<char>, scalar_on_left: bool) -> (
    Seq<char>,
    Seq<char>,
) {
    if scalar_on_left {
        (scalar, column)
    } else {
        (column, scalar)
    }
}

/// What a scalar operation selects and keeps: the metric column, the value
/// column, and a further condition. A comparison without `bool` keeps name and
/// value and drops the rows that do not compare; anything else computes a new
/// value, which has no name.
pub open spec fn row_operation(
    scalar: Seq<char>,
    column: Seq<char>,
    op: BinOp,
    return_bool: bool,
    scalar_on_left: bool,
) -> (Seq<char>, Seq<char>, Seq<char>) {
    let (l, r) = sides(scalar, column, scalar_on_left);
    if compares(op) && !return_bool {
        (
            "s.metric_name"@,
            column,
            " AND ("@ + l + " "@ + comparison(op) + " "@ + r + ")"@,
        )
    } else {
        ("''"@, binop_value(op, l, r, return_bool), Seq::empty())
    }
}

fn row_parts(scalar: &str, column: &str, op: BinOp, return_bool: bool, scalar_on_left: bool) -> (r:
    (String, String, String))
    ensures
        (r.0@, r.1@, r.2@) == row_operation(
            scalar@,
            column@,
            op,
            return_bool,
            scalar_on_left,
        ),
{
    let l = if scalar_on_left {
        scalar
    } else {
        column
    };
    let r = if scalar_on_left {
        column
    } else {
        scalar
    };
    if op.is_comparison() && !return_bool {
        let mut extra = " AND (".to_string();
        extra.append(l);
        extra.append(" ");
        extra.append(cmp_op_sql(op));
        extra.append(" ");
        extra.append(r);
        extra.append(")");
        ("s.metric_name".to_string(), column.to_string(), extra)
    } else {
        let none = String::new();
        assert(none@ =~= Seq::empty());
        ("''".to_string(), binop_value_sql(op, l, r, return_bool), none)
    }
}

/// The statement of a scalar operation at one instant.
pub open spec fn scalar_instant_text(
    sel: SelectorView,
    scalar: Seq<char>,
    op: BinOp,
    return_bool: bool,
    scalar_on_left: bool,
    time_us: i64,
) -> Seq<char> {
    let (metric, value, extra) = row_operation(scalar, "l.value"@, op, return_bool, scalar_on_left);
    "WITH latest AS ( SELECT sa.series_id, sa.value, "@ + LATEST_FIRST@ + FROM_JOINED@ + " WHERE "@
        + where_conditions(sel, (time_us - LOOKBACK_US) as i64, time_us) + " ) SELECT "@ + metric
        + " AS metric_name, s.labels, ("@ + value
        + ") AS value FROM latest l JOIN iceberg.skaldberg.series s ON l.series_id = s.series_id WHERE l.rn = 1"@
        + extra
}

/// The statement of `<scalar> <op> <selector>`, or the other way round, at one
/// instant. `scalar` is the number as a SQL literal.
pub fn scalar_instant_sql(
    sel: &Selector,
    scalar: &str,
    op: BinOp,
    return_bool: bool,
    scalar_on_left: bool,
    time_us: i64,
) -> (r: String)
    requires
        time_us >= i64::MIN + LOOKBACK_US,
    ensures
        r@ == scalar_instant_text(sel@, scalar@, op, return_bool, scalar_on_left, time_us),
{
    let (metric, value, extra) = row_parts(scalar, "l.value", op, return_bool, scalar_on_left);
    let mut r = "WITH latest AS ( SELECT sa.series_id, sa.value, ".to_string();
    r.append(LATEST_FIRST);
    r.append(FROM_JOINED);
    r.append(" WHERE ");
    r.append(where_list(sel, time_us - LOOKBACK_US, time_us).as_str());
    r.append(" ) SELECT ");
    r.append(metric.as_str());
    r.append(" AS metric_name, s.labels, (");
    r.append(value.as_str());
    r.append(
        ") AS value FROM latest l JOIN iceberg.skaldberg.series s ON l.series_id = s.series_id WHERE l.rn = 1",
    );
    r.append(extra.as_str());
    r
}

/// The statement of a scalar operation over a range. The metric column is not
/// named `metric_name`, so that it does not hide the column the rows are ordered
/// by.
pub open spec fn scalar_range_text(
    sel: SelectorView,
    scalar: Seq<char>,
    op: BinOp,
    return_bool: bool,
    scalar_on_left: bool,
    start_us: i64,
    end_us: i64,
) -> Seq<char> {
    let (metric, value, extra) = row_operation(scalar, "sa.value"@, op, return_bool, scalar_on_left);
    "SELECT "@ + metric + " AS m_name, s.labels, sa.timestamp, ("@ + value + ") AS value "@
        + FROM_JOINED@ + " WHERE "@ + where_conditions(sel, start_us, end_us) + extra
        + " ORDER BY s.metric_name, sa.timestamp"@
}

/// The statement of `<scalar> <op> <selector>`, or the other way round, over a
/// range. `scalar` is the number as a SQL literal.
pub fn scalar_range_sql(
    sel: &Selector,
    scalar: &str,
    op: BinOp,
    return_bool: bool,
    scalar_on_left: bool,
    start_us: i64,
    end_us: i64,
) -> (r: String)
    ensures
        r@ == scalar_range_text(
            sel@,
            scalar@,
            op,
            return_bool,
            scalar_on_left,
            start_us,
            end_us,
        ),
{
    let (metric, value, extra) = row_parts(scalar, "sa.value", op, return_bool, scalar_on_left);
    let mut r = "SELECT ".to_string();
    r.append(metric.as_str());
    r.append(" AS m_name, s.labels, sa.timestamp, (");
    r.append(value.as_str());
    r.append(") AS value ");
    r.append(FROM_JOINED);
    r.append(" WHERE ");
    r.append(where_list(sel, start_us, end_us).as_str());
    r.append(extra.as_str());
    r.append(" ORDER BY s.metric_name, sa.timestamp");
    r
}

// ---------- labels and series ----------

/// The statement that lists the label names in use.
pub const LABELS_SQL: &'static str = "SELECT DISTINCT k FROM \
    (SELECT unnest(map_keys(s.labels)) AS k FROM iceberg.skaldberg.series s) \
    ORDER BY k";

/// The statement that lists the values of a label: the metric names for
/// `__name__`, else the values of the series that have the label.
pub open spec fn label_values_text(name: Seq<char>) -> Seq<char> {
    if name == NAME_LABEL@ {
        "SELECT DISTINCT metric_name AS v FROM iceberg.skaldberg.series ORDER BY v"@
    } else {
        "SELECT DISTINCT element_at(labels, '"@ + escaped(name)
            + "')[1] AS v FROM iceberg.skaldberg.series WHERE element_at(labels, '"@ + escaped(name)
            + "')[1] IS NOT NULL ORDER BY v"@
    }
}

/// The statement that lists the values of a label.
pub fn label_values_sql(name: &str) -> (r: String)
    ensures
        r@ == label_values_text(name@),
{
    if same_text(name, NAME_LABEL) {
        "SELECT DISTINCT metric_name AS v FROM iceberg.skaldberg.series ORDER BY v".to_string()
    } else {
        let key = sql_escape(name);
        let mut r = "SELECT DISTINCT element_at(labels, '".to_string();
        r.append(key.as_str());
        r.append("')[1] AS v FROM iceberg.skaldberg.series WHERE element_at(labels, '");
        r.append(key.as_str());
        r.append("')[1] IS NOT NULL ORDER BY v");
        r
    }
}

/// The statement that lists the series that meet a selector's name and its `=`
/// and `!=` matchers, all series where it has none.
pub open spec fn series_text(sel: SelectorView) -> Seq<char> {
    "SELECT s.metric_name, s.labels FROM iceberg.skaldberg.series s"@ + if predicates(sel).len()
        == 0 {
        Seq::empty()
    } else {
        " WHERE "@ + joined(predicates(sel), " AND "@)
    }
}

/// The statement that lists the series that meet a selector's name and its `=`
/// and `!=` matchers. Its regex matchers are applied to the rows that come back.
pub fn series_sql(sel: &Selector) -> (r: String)
    ensures
        r@ == series_text(sel@),
{
    let conds = selector_predicates(sel);
    let mut tail = String::new();
    if conds.len() == 0 {
        assert(tail@ =~= Seq::empty());
    } else {
        tail.append(" WHERE ");
        tail.append(join(&conds, " AND ").as_str());
        assert(tail@ =~= " WHERE "@ + joined(texts(conds@), " AND "@));
    }
    let mut r = "SELECT s.metric_name, s.labels FROM iceberg.skaldberg.series s".to_string();
    r.append(tail.as_str());
    r
}

} // verus!
