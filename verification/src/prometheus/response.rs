//! The bodies that queries are answered with.

use vstd::prelude::*;
use crate::json::{
    field_views, json_views, lemma_field_views, lemma_json_views, put, put_field, Fields, Json,
    JsonView,
};
use crate::labels::{Labels, Pairs};
use crate::prometheus::error::PromError;
use crate::prometheus::rows::{
    point_views, range_views, InstantPoint, PointView, RangePoints, RangeView,
};
use crate::prometheus::sql::NAME_LABEL;

verus! {

// ---------- metrics ----------

/// The fields with one set for each label.
pub open spec fn with_labels(fields: Fields, labels: Pairs) -> Fields
    decreases labels.len(),
{
    if labels.len() == 0 {
        fields
    } else {
        put(
            with_labels(fields, labels.drop_last()),
            labels.last().0,
            JsonView::Text(labels.last().1),
        )
    }
}

/// A series as a metric object: its name and its labels.
pub open spec fn metric_json(name: Seq<char>, labels: Pairs) -> JsonView {
    JsonView::Object(with_labels(seq![(NAME_LABEL@, JsonView::Text(name))], labels))
}

/// A series without a name as a metric object: its labels.
pub open spec fn nameless_json(labels: Pairs) -> JsonView {
    JsonView::Object(with_labels(Seq::empty(), labels))
}

/// A series as a metric object; a name that was stripped is left out.
pub open spec fn series_json(name: Seq<char>, labels: Pairs) -> JsonView {
    if name.len() == 0 {
        nameless_json(labels)
    } else {
        metric_json(name, labels)
    }
}

fn put_labels(fields: &mut Vec<(String, Json)>, labels: &Labels)
    ensures
        field_views(final(fields)@) == with_labels(field_views(old(fields)@), labels@),
{
    let ghost first = field_views(fields@);
    let n: usize = labels.len();
    let mut i: usize = 0;
    assert(labels@.take(0).len() == 0);
    while i < n
        invariant
            n == labels@.len(),
            i <= n,
            field_views(fields@) == with_labels(first, labels@.take(i as int)),
        decreases n - i,
    {
        proof {
            assert(labels@.take(i as int + 1).drop_last() =~= labels@.take(i as int));
            assert(labels@.take(i as int + 1).last() == labels@[i as int]);
        }
        put_field(
            fields,
            labels.name_at(i).clone(),
            Json::Text(labels.value_at(i).clone()),
        );
        i += 1;
    }
    assert(labels@.take(n as int) =~= labels@);
}

/// A series as a metric object: its name and its labels.
pub fn series_metric_obj(metric_name: &str, labels: &Labels) -> (r: Json)
    ensures
        r.view() == metric_json(metric_name@, labels@),
{
    let mut fields: Vec<(String, Json)> = Vec::new();
    fields.push((NAME_LABEL.to_string(), Json::Text(metric_name.to_string())));
    proof {
        lemma_field_views(fields@);
        assert(fields@[0].1.view() == JsonView::Text(metric_name@));
        assert(field_views(fields@) =~= seq![(NAME_LABEL@, JsonView::Text(metric_name@))]);
    }
    put_labels(&mut fields, labels);
    Json::Object(fields)
}

/// A series as a metric object without its name, as aggregations have it.
pub fn metric_obj_no_name(labels: &Labels) -> (r: Json)
    ensures
        r.view() == nameless_json(labels@),
{
    let mut fields: Vec<(String, Json)> = Vec::new();
    assert(field_views(fields@) =~= Seq::empty());
    put_labels(&mut fields, labels);
    Json::Object(fields)
}

fn metric_obj(metric_name: &str, labels: &Labels) -> (r: Json)
    ensures
        r.view() == series_json(metric_name@, labels@),
{
    if metric_name.unicode_len() == 0 {
        metric_obj_no_name(labels)
    } else {
        series_metric_obj(metric_name, labels)
    }
}

// ---------- points ----------

/// A time and a value: seconds, and the value as a string.
pub open spec fn sample_json(ts_us: i64, value: u64) -> JsonView {
    JsonView::Array(seq![JsonView::Seconds(ts_us), JsonView::DoubleText(value)])
}

/// An object of two fields.
pub open spec fn two(
    name1: Seq<char>,
    value1: JsonView,
    name2: Seq<char>,
    value2: JsonView,
) -> JsonView {
    JsonView::Object(seq![(name1, value1), (name2, value2)])
}

/// A point as an element of an instant vector.
pub open spec fn point_json(p: PointView) -> JsonView {
    two(
        "metric"@,
        series_json(p.metric_name, p.labels),
        "value"@,
        sample_json(p.ts_us, p.value),
    )
}

/// A series as an element of a range matrix.
pub open spec fn range_json(s: RangeView) -> JsonView {
    two(
        "metric"@,
        series_json(s.metric_name, s.labels),
        "values"@,
        JsonView::Array(s.points.map_values(|p: (i64, u64)| sample_json(p.0, p.1))),
    )
}

fn sample_to_json(ts_us: i64, value: u64) -> (r: Json)
    ensures
        r.view() == sample_json(ts_us, value),
{
    let mut pair: Vec<Json> = Vec::new();
    pair.push(Json::Seconds(ts_us));
    pair.push(Json::DoubleText(value));
    proof {
        lemma_json_views(pair@);
        assert(pair@[0].view() == JsonView::Seconds(ts_us));
        assert(pair@[1].view() == JsonView::DoubleText(value));
        assert(json_views(pair@) =~= seq![JsonView::Seconds(ts_us), JsonView::DoubleText(value)]);
    }
    Json::Array(pair)
}

fn two_fields(name1: &str, value1: Json, name2: &str, value2: Json) -> (r: Json)
    ensures
        r.view() == two(name1@, value1.view(), name2@, value2.view()),
{
    let ghost v1 = value1.view();
    let ghost v2 = value2.view();
    let mut fields: Vec<(String, Json)> = Vec::new();
    fields.push((name1.to_string(), value1));
    fields.push((name2.to_string(), value2));
    proof {
        lemma_field_views(fields@);
        assert(field_views(fields@) =~= seq![(name1@, v1), (name2@, v2)]);
    }
    Json::Object(fields)
}

/// Points as the elements of an instant vector.
pub fn instant_points_to_json(points: Vec<InstantPoint>) -> (r: Vec<Json>)
    ensures
        json_views(r@) == point_views(points@).map_values(|p: PointView| point_json(p)),
{
    let ghost want = point_views(points@).map_values(|p: PointView| point_json(p));
    let mut out: Vec<Json> = Vec::new();
    let mut i: usize = 0;
    assert(json_views(out@) =~= want.take(0));
    while i < points.len()
        invariant
            want == point_views(points@).map_values(|p: PointView| point_json(p)),
            i <= points@.len(),
            json_views(out@) == want.take(i as int),
        decreases points@.len() - i,
    {
        let ghost before = out@;
        let p = &points[i];
        let j = two_fields(
            "metric",
            metric_obj(p.metric_name.as_str(), &p.labels),
            "value",
            sample_to_json(p.ts_us, p.value),
        );
        out.push(j);
        proof {
            assert(out@.drop_last() =~= before);
            assert(want[i as int] == j.view());
            assert(json_views(out@) =~= want.take(i as int + 1));
        }
        i += 1;
    }
    assert(want.take(i as int) =~= want);
    out
}

fn points_to_json(points: &Vec<(i64, u64)>) -> (r: Json)
    ensures
        r.view() == JsonView::Array(
            points@.map_values(|p: (i64, u64)| sample_json(p.0, p.1)),
        ),
{
    let ghost want = points@.map_values(|p: (i64, u64)| sample_json(p.0, p.1));
    let mut out: Vec<Json> = Vec::new();
    let mut i: usize = 0;
    assert(json_views(out@) =~= want.take(0));
    while i < points.len()
        invariant
            want == points@.map_values(|p: (i64, u64)| sample_json(p.0, p.1)),
            i <= points@.len(),
            json_views(out@) == want.take(i as int),
        decreases points@.len() - i,
    {
        let ghost before = out@;
        let j = sample_to_json(points[i].0, points[i].1);
        out.push(j);
        proof {
            assert(out@.drop_last() =~= before);
            assert(json_views(out@) =~= want.take(i as int + 1));
        }
        i += 1;
    }
    assert(want.take(i as int) =~= want);
    Json::Array(out)
}

/// Series as the elements of a range matrix.
pub fn range_points_to_json(series: Vec<RangePoints>) -> (r: Vec<Json>)
    ensures
        json_views(r@) == range_views(series@).map_values(|s: RangeView| range_json(s)),
{
    let ghost want = range_views(series@).map_values(|s: RangeView| range_json(s));
    let mut out: Vec<Json> = Vec::new();
    let mut i: usize = 0;
    assert(json_views(out@) =~= want.take(0));
    while i < series.len()
        invariant
            want == range_views(series@).map_values(|s: RangeView| range_json(s)),
            i <= series@.len(),
            json_views(out@) == want.take(i as int),
        decreases series@.len() - i,
    {
        let ghost before = out@;
        let s = &series[i];
        let j = two_fields(
            "metric",
            metric_obj(s.metric_name.as_str(), &s.labels),
            "values",
            points_to_json(&s.points),
        );
        out.push(j);
        proof {
            assert(out@.drop_last() =~= before);
            assert(want[i as int] == j.view());
            assert(json_views(out@) =~= want.take(i as int + 1));
        }
        i += 1;
    }
    assert(want.take(i as int) =~= want);
    out
}

// ---------- bodies ----------

/// The body of an answer that succeeded.
pub open spec fn success_json(data: JsonView) -> JsonView {
    two("status"@, JsonView::Text("success"@), "data"@, data)
}

/// The data of a query's answer.
pub open spec fn result_json(kind: Seq<char>, result: Seq<JsonView>) -> JsonView {
    two("resultType"@, JsonView::Text(kind), "result"@, JsonView::Array(result))
}

/// The body of an answer that succeeded.
pub fn success(data: Json) -> (r: Json)
    ensures
        r.view() == success_json(data.view()),
{
    two_fields("status", Json::Text("success".to_string()), "data", data)
}

/// The body of an instant query's answer.
pub fn success_vector(result: Vec<Json>) -> (r: Json)
    ensures
        r.view() == success_json(result_json("vector"@, json_views(result@))),
{
    success(
        two_fields(
            "resultType",
            Json::Text("vector".to_string()),
            "result",
            Json::Array(result),
        ),
    )
}

/// The body of a range query's answer.
pub fn success_matrix(result: Vec<Json>) -> (r: Json)
    ensures
        r.view() == success_json(result_json("matrix"@, json_views(result@))),
{
    success(
        two_fields(
            "resultType",
            Json::Text("matrix".to_string()),
            "result",
            Json::Array(result),
        ),
    )
}

/// The body of an answer that failed.
pub fn error_body(e: &PromError) -> (r: Json)
    ensures
        r.view() == JsonView::Object(
            seq![
                ("status"@, JsonView::Text("error"@)),
                ("errorType"@, JsonView::Text(e@.error_type)),
                ("error"@, JsonView::Text(e@.message)),
            ],
        ),
{
    let mut fields: Vec<(String, Json)> = Vec::new();
    fields.push(("status".to_string(), Json::Text("error".to_string())));
    fields.push(("errorType".to_string(), Json::Text(e.error_type.to_string())));
    fields.push(("error".to_string(), Json::Text(e.message.clone())));
    proof {
        lemma_field_views(fields@);
        assert(fields@[0].1.view() == JsonView::Text("error"@));
        assert(fields@[1].1.view() == JsonView::Text(e@.error_type));
        assert(fields@[2].1.view() == JsonView::Text(e@.message));
        assert(field_views(fields@) =~= seq![
            ("status"@, JsonView::Text("error"@)),
            ("errorType"@, JsonView::Text(e@.error_type)),
            ("error"@, JsonView::Text(e@.message)),
        ]);
    }
    Json::Object(fields)
}

} // verus!
