//! The Grafana JSON datasource contract.
//!
//! A series is known to Grafana by its target: `metric`, or
//! `metric{k1=v1,k2=v2}` with the labels in name order where it has any. Raw
//! points are returned, without downsampling; `maxDataPoints` is a hard cap.

use vstd::prelude::*;
use vstd::string::StringExecFns;
use crate::calendar::{parse_rfc3339_to_us, rfc3339_micros, ts_literal, us_to_ts_lit};
use crate::double::{is_finite, is_finite_bits};
use crate::json::{Json, JsonView};
use crate::labels::{Labels, Pairs};
use crate::ordered::{items_under, keys_of, lemma_gathered, Groups};
use crate::prometheus::error::{BAD_REQUEST, INTERNAL_SERVER_ERROR};
use crate::prometheus::rows::{
    label_list, label_list_text, law_series_key_identifies, point_views, separable, InstantPoint,
    PointView,
};
use crate::prometheus::sql::{escaped, sql_escape};
use crate::text::{
    contains, join, joined, occurs_in, push_signed, signed_decimal, texts,
};

verus! {

/// Why a request failed, with the HTTP status it is answered with.
#[derive(Debug)]
pub struct GrafanaError {
    pub status: u16,
    pub message: String,
}

/// The view of a `GrafanaError`.
pub type FailureView = (u16, Seq<char>);

impl View for GrafanaError {
    type V = FailureView;

    open spec fn view(&self) -> FailureView {
        (self.status, self.message@)
    }
}

impl GrafanaError {
    /// The server is at fault.
    pub fn internal(message: String) -> (r: GrafanaError)
        ensures
            r@ == (INTERNAL_SERVER_ERROR, message@),
    {
        GrafanaError { status: INTERNAL_SERVER_ERROR, message }
    }

    /// The request is at fault.
    pub fn bad_request(message: String) -> (r: GrafanaError)
        ensures
            r@ == (BAD_REQUEST, message@),
    {
        GrafanaError { status: BAD_REQUEST, message }
    }
}

// ---------- search ----------

/// Body of `POST /search`.
#[derive(Debug)]
pub struct SearchRequest {
    /// Substring filter; empty returns everything.
    pub target: String,
}

/// The metric names there are.
pub const SEARCH_SQL: &'static str =
    "SELECT DISTINCT metric_name FROM iceberg.skaldberg.series ORDER BY metric_name";

/// Whether a name is found by a search.
pub open spec fn found_by(name: Seq<char>, needle: Seq<char>) -> bool {
    needle.len() == 0 || occurs_in(needle, name)
}

/// The names that a search finds, in the order they came.
pub open spec fn found_names(rows: Seq<Option<String>>, needle: Seq<char>) -> Seq<Seq<char>>
    decreases rows.len(),
{
    if rows.len() == 0 {
        Seq::empty()
    } else {
        let rest = found_names(rows.drop_last(), needle);
        match rows.last() {
            Some(name) => if found_by(name@, needle) {
                rest.push(name@)
            } else {
                rest
            },
            None => rest,
        }
    }
}

/// The names that a search finds among the rows.
pub fn search(req: &SearchRequest, rows: Vec<Option<String>>) -> (r: Vec<String>)
    ensures
        texts(r@) == found_names(rows@, req.target@),
{
    let ghost all = rows@;
    let needle = req.target.as_str();
    let any: bool = needle.unicode_len() == 0;
    let mut names: Vec<String> = Vec::new();
    assert(texts(names@) =~= found_names(all.take(0), needle@));
    for row in it: rows
        invariant
            it.seq() == all,
            any == (needle@.len() == 0),
            texts(names@) == found_names(all.take(it.index() as int), needle@),
            all.take(all.len() as int) =~= all,
    {
        let ghost before = names@;
        proof {
            let t = all.take(it.index() as int + 1);
            assert(t.drop_last() =~= all.take(it.index() as int));
            assert(t.last() == row);
        }
        if let Some(name) = row {
            if any || contains(name.as_str(), needle) {
                let ghost v = name@;
                names.push(name);
                assert(texts(names@) =~= texts(before).push(v));
            }
        }
    }
    names
}

// ---------- query ----------

/// Body of `POST /query`.
#[derive(Debug)]
pub struct QueryRequest {
    pub range: TimeRange,
    pub targets: Vec<Target>,
    pub max_data_points: Option<i64>,
}

/// The time that a query covers, in RFC 3339.
#[derive(Debug)]
pub struct TimeRange {
    pub from: String,
    pub to: String,
}

/// A metric that is asked for.
#[derive(Debug)]
pub struct Target {
    pub target: String,
}

/// One series of the answer: `[value, milliseconds]` pairs.
#[derive(Debug)]
pub struct TimeseriesResp {
    pub target: String,
    pub datapoints: Vec<(Json, Json)>,
}

/// The targets as quoted SQL literals.
pub open spec fn quoted(targets: Seq<Target>) -> Seq<Seq<char>> {
    targets.map_values(|t: Target| "'"@ + escaped(t.target@) + "'"@)
}

/// The cap on the number of points.
pub open spec fn limit_text(max: Option<i64>) -> Seq<char> {
    match max {
        Some(n) => if n > 0 {
            " LIMIT "@ + signed_decimal(n as int)
        } else {
            Seq::empty()
        },
        None => Seq::empty(),
    }
}

/// The query for the points of some metrics between two instants.
pub open spec fn query_text(targets: Seq<Target>, from: i64, to: i64, max: Option<i64>) -> Seq<
    char,
> {
    "SELECT metric_name, labels, timestamp, value\n         FROM sk_metric\n         WHERE metric_name IN ("@
        + joined(quoted(targets), ", "@) + ")\n           AND timestamp BETWEEN TIMESTAMP '"@
        + ts_literal(from) + "' AND TIMESTAMP '"@ + ts_literal(to)
        + "'\n         ORDER BY metric_name, timestamp"@ + limit_text(max)
}

/// What a query asks for: nothing, where it has no targets, else SQL to run.
pub open spec fn query_plan(
    targets: Seq<Target>,
    from: Seq<char>,
    to: Seq<char>,
    max: Option<i64>,
) -> Result<Option<Seq<char>>, FailureView> {
    if targets.len() == 0 {
        Ok(None)
    } else {
        match rfc3339_micros(from) {
            None => Err((BAD_REQUEST, "range.from is not RFC-3339"@)),
            Some(f) => match rfc3339_micros(to) {
                None => Err((BAD_REQUEST, "range.to is not RFC-3339"@)),
                Some(t) => if t < f {
                    Err((BAD_REQUEST, "range.to is before range.from"@))
                } else {
                    Ok(Some(query_text(targets, f, t, max)))
                },
            },
        }
    }
}

/// The query for the points of some metrics between two instants.
pub fn query_sql(targets: &Vec<Target>, from: i64, to: i64, max: Option<i64>) -> (r: String)
    ensures
        r@ == query_text(targets@, from, to, max),
{
    let mut list: Vec<String> = Vec::new();
    let mut i: usize = 0;
    assert(texts(list@) =~= quoted(targets@).take(0));
    while i < targets.len()
        invariant
            i <= targets@.len(),
            texts(list@) == quoted(targets@).take(i as int),
        decreases targets@.len() - i,
    {
        let ghost before = list@;
        let mut lit = "'".to_string();
        lit.append(sql_escape(targets[i].target.as_str()).as_str());
        lit.append("'");
        let ghost v = lit@;
        list.push(lit);
        proof {
            assert(quoted(targets@)[i as int] == v);
            assert(texts(list@) =~= texts(before).push(v));
            assert(texts(list@) =~= quoted(targets@).take(i as int + 1));
        }
        i += 1;
    }
    assert(quoted(targets@).take(i as int) =~= quoted(targets@));
    let mut sql =
        "SELECT metric_name, labels, timestamp, value\n         FROM sk_metric\n         WHERE metric_name IN (".to_string();
    sql.append(join(&list, ", ").as_str());
    sql.append(")\n           AND timestamp BETWEEN TIMESTAMP '");
    sql.append(us_to_ts_lit(from).as_str());
    sql.append("' AND TIMESTAMP '");
    sql.append(us_to_ts_lit(to).as_str());
    sql.append("'\n         ORDER BY metric_name, timestamp");
    let ghost head = sql@;
    match max {
        Some(n) => {
            if n > 0 {
                sql.append(" LIMIT ");
                push_signed(&mut sql, n);
                assert(sql@ =~= head + limit_text(max));
            } else {
                assert(head =~= head + limit_text(max));
            }
        },
        None => {
            assert(head =~= head + limit_text(max));
        },
    }
    sql
}

/// Check a query and build its SQL; `None` where nothing is asked for.
pub fn plan_query(req: &QueryRequest) -> (r: Result<Option<String>, GrafanaError>)
    ensures
        match query_plan(req.targets@, req.range.from@, req.range.to@, req.max_data_points) {
            Ok(None) => r is Ok && r->Ok_0 is None,
            Ok(Some(sql)) => r is Ok && r->Ok_0 is Some && r->Ok_0->0@ == sql,
            Err(e) => r is Err && r->Err_0@ == e,
        },
{
    if req.targets.len() == 0 {
        return Ok(None);
    }
    let from: i64 = match parse_rfc3339_to_us(req.range.from.as_str()) {
        Some(us) => us,
        None => {
            return Err(GrafanaError::bad_request("range.from is not RFC-3339".to_string()));
        },
    };
    let to: i64 = match parse_rfc3339_to_us(req.range.to.as_str()) {
        Some(us) => us,
        None => {
            return Err(GrafanaError::bad_request("range.to is not RFC-3339".to_string()));
        },
    };
    if to < from {
        return Err(GrafanaError::bad_request("range.to is before range.from".to_string()));
    }
    Ok(Some(query_sql(&req.targets, from, to, req.max_data_points)))
}

// ---------- answers ----------

/// The target of a series.
pub open spec fn target_text(metric: Seq<char>, labels: Pairs) -> Seq<char> {
    if labels.len() == 0 {
        metric
    } else {
        metric + "{"@ + label_list(labels) + "}"@
    }
}

/// The target of a series: stable, because Grafana groups series by it.
pub fn target_of(metric: &str, labels: &Labels) -> (r: String)
    ensures
        r@ == target_text(metric@, labels@),
{
    let mut r = metric.to_string();
    if !labels.is_empty() {
        r.append("{");
        r.append(label_list_text(labels).as_str());
        r.append("}");
    }
    r
}

/// Grafana takes two series for one only if they have the same metric and the
/// same labels.
pub proof fn law_targets_identify(m1: Seq<char>, l1: Pairs, m2: Seq<char>, l2: Pairs)
    requires
        !m1.contains('{'),
        !m2.contains('{'),
        separable(l1),
        separable(l2),
    ensures
        target_text(m1, l1) == target_text(m2, l2) <==> m1 == m2 && l1 == l2,
{
    reveal_strlit("{");
    if l1.len() == 0 && l2.len() == 0 {
        assert(l1 =~= l2);
    } else if l1.len() == 0 {
        assert(target_text(m2, l2)[m2.len() as int] == '{');
    } else if l2.len() == 0 {
        assert(target_text(m1, l1)[m1.len() as int] == '{');
    } else {
        law_series_key_identifies(m1, l1, m2, l2);
    }
}

/// Microseconds as whole milliseconds, cut towards zero.
pub open spec fn millis(us: i64) -> i64 {
    if us >= 0 {
        (us as int / 1000) as i64
    } else {
        (-((-us) as int / 1000)) as i64
    }
}

/// A value as a JSON number, null where it is not finite.
pub open spec fn value_json(bits: u64) -> JsonView {
    if is_finite_bits(bits) {
        JsonView::Double(bits)
    } else {
        JsonView::Null
    }
}

/// A point as Grafana has it: the value, then milliseconds.
pub open spec fn datapoint(ts_us: i64, value: u64) -> (JsonView, JsonView) {
    (value_json(value), JsonView::Int(millis(ts_us)))
}

/// The views of a list of points.
pub open spec fn datapoint_views(s: Seq<(Json, Json)>) -> Seq<(JsonView, JsonView)> {
    s.map_values(|p: (Json, Json)| (p.0.view(), p.1.view()))
}

/// The view of a `TimeseriesResp`.
pub type RespView = (Seq<char>, Seq<(JsonView, JsonView)>);

impl View for TimeseriesResp {
    type V = RespView;

    open spec fn view(&self) -> RespView {
        (self.target@, datapoint_views(self.datapoints@))
    }
}

/// The views of a list of answers.
pub open spec fn resp_views(s: Seq<TimeseriesResp>) -> Seq<RespView> {
    s.map_values(|t: TimeseriesResp| t@)
}

/// The rows, each filed under its target.
pub open spec fn by_target(rows: Seq<PointView>) -> Seq<(Seq<char>, (i64, u64))> {
    rows.map_values(
        |r: PointView| (target_text(r.metric_name, r.labels), (r.ts_us, r.value)),
    )
}

/// One answer for each target, in target order, with its points in the order
/// they came.
pub open spec fn answer(rows: Seq<PointView>) -> Seq<RespView> {
    let input = by_target(rows);
    let keys = keys_of::<String, (i64, u64)>(input);
    Seq::new(
        keys.len(),
        |i: int|
            (
                keys[i],
                items_under(input, keys[i]).map_values(|p: (i64, u64)| datapoint(p.0, p.1)),
            ),
    )
}

fn to_datapoints(points: &Vec<(i64, u64)>) -> (r: Vec<(Json, Json)>)
    ensures
        datapoint_views(r@) == points@.map_values(|p: (i64, u64)| datapoint(p.0, p.1)),
{
    let ghost want = points@.map_values(|p: (i64, u64)| datapoint(p.0, p.1));
    let mut r: Vec<(Json, Json)> = Vec::new();
    let mut i: usize = 0;
    assert(datapoint_views(r@) =~= want.take(0));
    while i < points.len()
        invariant
            want == points@.map_values(|p: (i64, u64)| datapoint(p.0, p.1)),
            i <= points@.len(),
            datapoint_views(r@) == want.take(i as int),
        decreases points@.len() - i,
    {
        let ghost before = r@;
        let (ts, v) = points[i];
        let value = if is_finite(v) {
            Json::Double(v)
        } else {
            Json::Null
        };
        let ms: i64 = ts / 1000;
        let d = (value, Json::Int(ms));
        r.push(d);
        proof {
            assert((d.0.view(), d.1.view()) == datapoint(ts, v));
            assert(datapoint_views(r@) =~= datapoint_views(before).push(datapoint(ts, v)));
            assert(datapoint_views(r@) =~= want.take(i as int + 1));
        }
        i += 1;
    }
    assert(want.take(i as int) =~= want);
    r
}

/// Group the rows of a query into one answer for each series.
pub fn group_by_target(rows: Vec<InstantPoint>) -> (r: Vec<TimeseriesResp>)
    ensures
        resp_views(r@) == answer(point_views(rows@)),
{
    let ghost all = by_target(point_views(rows@));
    let mut g: Groups<String, (i64, u64)> = Groups::new();
    let mut i: usize = 0;
    assert(g.input@ =~= all.take(0));
    while i < rows.len()
        invariant
            all == by_target(point_views(rows@)),
            i <= rows@.len(),
            g.wf(),
            g.input@ == all.take(i as int),
        decreases rows@.len() - i,
    {
        let row = &rows[i];
        let target = target_of(row.metric_name.as_str(), &row.labels);
        let ghost t = target@;
        g.push(target, (row.ts_us, row.value));
        proof {
            assert(all[i as int] == (t, (row.ts_us, row.value)));
            assert(all.take(i as int + 1) =~= all.take(i as int).push(all[i as int]));
        }
        i += 1;
    }
    proof {
        assert(all.take(i as int) =~= all);
        lemma_gathered::<String, (i64, u64)>(g.input@, g.key_views(), g.item_views());
    }
    let ghost keys = g.key_views();
    let ghost want = answer(point_views(rows@));
    let mut out: Vec<TimeseriesResp> = Vec::new();
    let mut i: usize = 0;
    assert(resp_views(out@) =~= want.take(0));
    while i < g.keys.len()
        invariant
            i <= g.keys@.len(),
            keys == g.key_views(),
            g.items@.len() == g.keys@.len(),
            forall|j: int|
                0 <= j < keys.len() ==> #[trigger] g.item_views()[j] == items_under(all, keys[j]),
            want.len() == keys.len(),
            forall|j: int|
                0 <= j < keys.len() ==> #[trigger] want[j] == (
                    keys[j],
                    items_under(all, keys[j]).map_values(|p: (i64, u64)| datapoint(p.0, p.1)),
                ),
            resp_views(out@) == want.take(i as int),
        decreases g.keys@.len() - i,
    {
        let ghost before = out@;
        proof {
            assert(g.item_views()[i as int] == g.items@[i as int]@);
            assert(keys[i as int] == g.keys@[i as int]@);
        }
        let datapoints = to_datapoints(&g.items[i]);
        let t = TimeseriesResp { target: g.keys[i].clone(), datapoints };
        out.push(t);
        proof {
            assert(want[i as int] == t@);
            assert(resp_views(out@) =~= resp_views(before).push(t@));
            assert(want.take(i as int + 1) =~= want.take(i as int).push(want[i as int]));
        }
        i += 1;
    }
    assert(want.take(i as int) =~= want);
    out
}

} // verus!
