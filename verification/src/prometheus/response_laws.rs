//! What the answers show, in terms of the points and series they show.

use vstd::prelude::*;
use crate::json::{distinct_fields, law_put_keeps_names_distinct, put, Fields, JsonView};
use crate::labels::Pairs;
use crate::prometheus::response::{
    metric_json, nameless_json, point_json, range_json, result_json, series_json, success_json,
    with_labels,
};
use crate::prometheus::rows::{PointView, RangeView};
use crate::prometheus::sql::NAME_LABEL;

verus! {

/// One of the fields has this name and this value.
pub open spec fn has_field(fields: Fields, name: Seq<char>, value: JsonView) -> bool {
    exists|i: int| 0 <= i < fields.len() && #[trigger] fields[i] == (name, value)
}

/// An object with a field of this name and this value.
pub open spec fn shows(json: JsonView, name: Seq<char>, value: JsonView) -> bool {
    match json {
        JsonView::Object(fields) => has_field(fields, name, value),
        _ => false,
    }
}

/// The labels have a name and give it a value.
pub open spec fn has_label(labels: Pairs, name: Seq<char>, value: Seq<char>) -> bool {
    exists|i: int| 0 <= i < labels.len() && #[trigger] labels[i] == (name, value)
}

/// The labels have a name.
pub open spec fn names_label(labels: Pairs, name: Seq<char>) -> bool {
    exists|i: int| 0 <= i < labels.len() && (#[trigger] labels[i]).0 == name
}

/// No label's name occurs twice.
pub open spec fn distinct_labels(labels: Pairs) -> bool {
    forall|i: int, j: int|
        0 <= i < j < labels.len() ==> (#[trigger] labels[i]).0 != (#[trigger] labels[j]).0
}

/// The time and the value of a sample: seconds as a number, then the value as
/// text.
pub open spec fn shows_sample(json: JsonView, ts_us: i64, value: u64) -> bool {
    match json {
        JsonView::Array(items) => {
            &&& items.len() == 2
            &&& items[0] == JsonView::Seconds(ts_us)
            &&& items[1] == JsonView::DoubleText(value)
        },
        _ => false,
    }
}

/// Setting a field gives its name the value, and leaves every other field as it
/// was.
pub proof fn law_put_sets_one_field(fields: Fields, name: Seq<char>, value: JsonView)
    requires
        distinct_fields(fields),
    ensures
        has_field(put(fields, name, value), name, value),
        forall|v: JsonView| #[trigger]
            has_field(put(fields, name, value), name, v) ==> v == value,
        forall|n: Seq<char>, v: JsonView|
            n != name ==> #[trigger] has_field(put(fields, name, value), n, v) == has_field(
                fields,
                n,
                v,
            ),
    decreases fields.len(),
{
    let after = put(fields, name, value);
    law_put_keeps_names_distinct(fields, name, value);
    if fields.len() == 0 {
        assert(after[0] == (name, value));
    } else {
        let rest = fields.skip(1);
        assert forall|i: int, j: int| 0 <= i < j < rest.len() implies (#[trigger] rest[i]).0 != (
        #[trigger] rest[j]).0 by {
            assert(rest[i] == fields[i + 1] && rest[j] == fields[j + 1]);
        }
        if fields[0].0 == name {
            assert(after =~= fields.update(0, (name, value)));
            assert(after[0] == (name, value));
            assert forall|n: Seq<char>, v: JsonView| n != name implies #[trigger] has_field(
                after,
                n,
                v,
            ) == has_field(fields, n, v) by {
                if has_field(after, n, v) {
                    let i = choose|i: int| 0 <= i < after.len() && #[trigger] after[i] == (n, v);
                    assert(fields[i] == (n, v));
                }
                if has_field(fields, n, v) {
                    let i = choose|i: int| 0 <= i < fields.len() && #[trigger] fields[i] == (n, v);
                    assert(after[i] == (n, v));
                }
            }
        } else {
            law_put_sets_one_field(rest, name, value);
            let tail = put(rest, name, value);
            assert(after =~= seq![fields[0]] + tail);
            let k = choose|i: int| 0 <= i < tail.len() && #[trigger] tail[i] == (name, value);
            assert(after[k + 1] == (name, value));
            assert forall|n: Seq<char>, v: JsonView| n != name implies #[trigger] has_field(
                after,
                n,
                v,
            ) == has_field(fields, n, v) by {
                assert(has_field(tail, n, v) == has_field(rest, n, v));
                if has_field(after, n, v) {
                    let i = choose|i: int| 0 <= i < after.len() && #[trigger] after[i] == (n, v);
                    if i == 0 {
                        assert(fields[0] == (n, v));
                    } else {
                        assert(tail[i - 1] == (n, v));
                        let j = choose|j: int| 0 <= j < rest.len() && #[trigger] rest[j] == (n, v);
                        assert(fields[j + 1] == (n, v));
                    }
                }
                if has_field(fields, n, v) {
                    let i = choose|i: int| 0 <= i < fields.len() && #[trigger] fields[i] == (n, v);
                    if i == 0 {
                        assert(after[0] == (n, v));
                    } else {
                        assert(rest[i - 1] == (n, v));
                        let j = choose|j: int| 0 <= j < tail.len() && #[trigger] tail[j] == (n, v);
                        assert(after[j + 1] == (n, v));
                    }
                }
            }
        }
    }
    assert forall|v: JsonView| #[trigger] has_field(after, name, v) implies v == value by {
        let i = choose|i: int| 0 <= i < after.len() && #[trigger] after[i] == (name, v);
        let j = choose|j: int| 0 <= j < after.len() && #[trigger] after[j] == (name, value);
        if i < j {
            assert(after[i].0 != after[j].0);
        } else if j < i {
            assert(after[j].0 != after[i].0);
        }
    }
}

proof fn lemma_labels_are_shown(fields: Fields, labels: Pairs)
    requires
        distinct_fields(fields),
        distinct_labels(labels),
    ensures
        distinct_fields(with_labels(fields, labels)),
        forall|n: Seq<char>, v: JsonView| #[trigger]
            has_field(with_labels(fields, labels), n, v) == if names_label(labels, n) {
                v is Text && has_label(labels, n, v->Text_0)
            } else {
                has_field(fields, n, v)
            },
    decreases labels.len(),
{
    if labels.len() > 0 {
        let front = labels.drop_last();
        let last = labels.last();
        assert forall|i: int, j: int| 0 <= i < j < front.len() implies (#[trigger] front[i]).0 != (
        #[trigger] front[j]).0 by {
            assert(front[i] == labels[i] && front[j] == labels[j]);
        }
        lemma_labels_are_shown(fields, front);
        let before = with_labels(fields, front);
        law_put_sets_one_field(before, last.0, JsonView::Text(last.1));
        law_put_keeps_names_distinct(before, last.0, JsonView::Text(last.1));
        let after = with_labels(fields, labels);
        assert(labels[labels.len() - 1] == last);
        assert forall|n: Seq<char>, v: JsonView| #[trigger] has_field(after, n, v) == if names_label(
            labels,
            n,
        ) {
            v is Text && has_label(labels, n, v->Text_0)
        } else {
            has_field(fields, n, v)
        } by {
            if n == last.0 {
                assert(names_label(labels, n));
                if has_field(after, n, v) {
                    assert(v == JsonView::Text(last.1));
                    assert(labels[labels.len() - 1] == (n, v->Text_0));
                }
                if v is Text && has_label(labels, n, v->Text_0) {
                    let i = choose|i: int|
                        0 <= i < labels.len() && #[trigger] labels[i] == (n, v->Text_0);
                    if i < labels.len() - 1 {
                        assert(labels[i].0 != labels[labels.len() - 1].0);
                    }
                    assert(v == JsonView::Text(last.1));
                }
            } else {
                assert(has_field(after, n, v) == has_field(before, n, v));
                if names_label(labels, n) {
                    let i = choose|i: int| 0 <= i < labels.len() && (#[trigger] labels[i]).0 == n;
                    assert(front[i].0 == n);
                }
                if names_label(front, n) {
                    let i = choose|i: int| 0 <= i < front.len() && (#[trigger] front[i]).0 == n;
                    assert(labels[i].0 == n);
                }
                if v is Text {
                    if has_label(labels, n, v->Text_0) {
                        let i = choose|i: int|
                            0 <= i < labels.len() && #[trigger] labels[i] == (n, v->Text_0);
                        assert(front[i] == (n, v->Text_0));
                    }
                    if has_label(front, n, v->Text_0) {
                        let i = choose|i: int|
                            0 <= i < front.len() && #[trigger] front[i] == (n, v->Text_0);
                        assert(labels[i] == (n, v->Text_0));
                    }
                }
            }
        }
    } else {
        assert forall|n: Seq<char>| !#[trigger] names_label(labels, n) by {}
    }
}

/// A series is shown by its labels, each under its name, and by the name it
/// has, where it has one, under `__name__`; by nothing else.
pub proof fn law_a_series_is_shown_by_its_labels(
    name: Seq<char>,
    labels: Pairs,
    n: Seq<char>,
    v: JsonView,
)
    requires
        distinct_labels(labels),
        !names_label(labels, "__name__"@),
    ensures
        shows(series_json(name, labels), n, v) <==> {
            ||| v is Text && has_label(labels, n, v->Text_0)
            ||| name.len() > 0 && n == "__name__"@ && v == JsonView::Text(name)
        },
        shows(metric_json(name, labels), n, v) <==> {
            ||| v is Text && has_label(labels, n, v->Text_0)
            ||| n == "__name__"@ && v == JsonView::Text(name)
        },
        shows(nameless_json(labels), n, v) <==> v is Text && has_label(labels, n, v->Text_0),
{
    let head: Fields = seq![(NAME_LABEL@, JsonView::Text(name))];
    let none: Fields = Seq::empty();
    lemma_labels_are_shown(head, labels);
    lemma_labels_are_shown(none, labels);
    assert(has_field(with_labels(head, labels), n, v) == if names_label(labels, n) {
        v is Text && has_label(labels, n, v->Text_0)
    } else {
        has_field(head, n, v)
    });
    assert(has_field(with_labels(none, labels), n, v) == if names_label(labels, n) {
        v is Text && has_label(labels, n, v->Text_0)
    } else {
        has_field(none, n, v)
    });
    if v is Text && has_label(labels, n, v->Text_0) {
        let i = choose|i: int| 0 <= i < labels.len() && #[trigger] labels[i] == (n, v->Text_0);
        assert(labels[i].0 == n);
        assert(names_label(labels, n));
    }
    if n == "__name__"@ && v == JsonView::Text(name) {
        assert(head[0] == (n, v));
    }
    if has_field(head, n, v) {
        assert(head[0] == (n, v));
    }
}

/// A point is shown by its series under `metric` and its sample under `value`;
/// a series of a range by itself under `metric` and by its samples, in order,
/// under `values`.
pub proof fn law_points_and_series_are_shown(p: PointView, s: RangeView, n: Seq<char>, v: JsonView)
    ensures
        shows(point_json(p), n, v) <==> {
            ||| n == "metric"@ && v == series_json(p.metric_name, p.labels)
            ||| n == "value"@ && shows_sample(v, p.ts_us, p.value)
        },
        shows(range_json(s), n, v) ==> {
            ||| n == "metric"@ && v == series_json(s.metric_name, s.labels)
            ||| n == "values"@ && v is Array && v->Array_0.len() == s.points.len() && forall|i: int|
                0 <= i < s.points.len() ==> shows_sample(
                    #[trigger] v->Array_0[i],
                    s.points[i].0,
                    s.points[i].1,
                )
        },
        shows(range_json(s), "metric"@, series_json(s.metric_name, s.labels)),
        exists|w: JsonView| #[trigger] shows(range_json(s), "values"@, w),
{
    let a = point_json(p)->Object_0;
    let b = range_json(s)->Object_0;
    assert(b[0] == ("metric"@, series_json(s.metric_name, s.labels)));
    assert(b[1] == ("values"@, b[1].1));
    assert(shows(range_json(s), "values"@, b[1].1));
    if n == "metric"@ && v == series_json(p.metric_name, p.labels) {
        assert(a[0] == (n, v));
    }
    if n == "value"@ && shows_sample(v, p.ts_us, p.value) {
        assert(v->Array_0 =~= seq![JsonView::Seconds(p.ts_us), JsonView::DoubleText(p.value)]);
        assert(a[1] == (n, v));
    }
}

/// An answer says that it succeeded, of what type its result is, and holds the
/// results in order.
pub proof fn law_answers_hold_their_results(kind: Seq<char>, result: Seq<JsonView>)
    ensures
        shows(success_json(result_json(kind, result)), "status"@, JsonView::Text("success"@)),
        shows(success_json(result_json(kind, result)), "data"@, result_json(kind, result)),
        shows(result_json(kind, result), "resultType"@, JsonView::Text(kind)),
        shows(result_json(kind, result), "result"@, JsonView::Array(result)),
{
    let data = result_json(kind, result);
    let a = success_json(data)->Object_0;
    let b = data->Object_0;
    assert(a[0] == ("status"@, JsonView::Text("success"@)));
    assert(a[1] == ("data"@, data));
    assert(b[0] == ("resultType"@, JsonView::Text(kind)));
    assert(b[1] == ("result"@, JsonView::Array(result)));
}

} // verus!
