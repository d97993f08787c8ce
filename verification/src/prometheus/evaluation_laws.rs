//! How an expression's value is made of the values of its parts.

use vstd::prelude::*;
use crate::labels::{lookup, Labels, Pairs};
use crate::ordered::{
    flat, has_key, items_under, keys_of, lemma_item_comes_from, lemma_items_under_empty,
    lemma_keys_of_exists, SortKey,
};
use crate::prometheus::aggregate::{
    aggregated, aggregated_series, all_points, points_by_group, retained, series_by_group,
};
use crate::prometheus::aggregate_laws::{
    has_its_series, lemma_latest_of, picks_latest, same_series,
};
use crate::prometheus::ast::{Grouping, MatcherView, QueryExpr, SelectorView};
use crate::prometheus::decode::{
    aggregate_points, aggregate_series, finite_points, rows_fit, ValueRow,
};
use crate::prometheus::evaluate::{instant_value, range_value, Rows, Span};
use crate::prometheus::histogram::{histogram_points, histogram_series, NumberReader};
use crate::prometheus::numbers::Arithmetic;
use crate::prometheus::operate::{matched_points, matched_series, scalar_points, scalar_series};
use crate::prometheus::plan::{
    bare_selector, by_ref, count_of, law_steps_go_inward, step_of, BinOp, Step,
};
use crate::prometheus::plan_laws::{
    is_ranking, is_topk, law_operations_by_their_signs, law_quantiles_by_their_name,
    law_range_functions_by_their_names, law_rankings_by_their_names,
    law_reductions_by_their_names, law_selectors_are_fetched, named_aggregation, named_function,
    signed_operator,
};
use crate::prometheus::rows::{
    is_pattern, key_text, kept_rows, meets_all, pattern_matches, point_views, row_matchers,
    series_matches, PointView, RangeView,
};
use crate::prometheus::series::{by_series, latest_of, series_of, window_series};
use crate::prometheus::topk::{
    chosen, chosen_over_time, law_topk_keeps_n, points_at, top_points, top_series, value_at,
};
use crate::prometheus::sql::group_keys;
use crate::text::{ascii_lowered, text_before};
use crate::double::is_finite_bits;
use crate::prometheus::fetch_laws::{is_range_function, sql_decides};

verus! {

// ---------- rows of samples ----------

/// The latest rows are one of each series, and none of its series is later.
pub proof fn law_the_latest_of_each_series(rows: Seq<PointView>)
    ensures
        picks_latest(rows, latest_of(rows)),
{
    let input = by_series(rows);
    let keys = keys_of::<String, PointView>(input);
    let out = latest_of(rows);
    lemma_keys_of_exists::<String, PointView>(input);
    assert forall|i: int| 0 <= i < out.len() implies rows.contains(#[trigger] out[i]) by {
        lemma_latest_of(rows, i);
    }
    assert forall|i: int, j: int|
        0 <= i < rows.len() && 0 <= j < out.len() && same_series(
            #[trigger] rows[i],
            #[trigger] out[j],
        ) implies rows[i].ts_us <= out[j].ts_us by {
        lemma_latest_of(rows, j);
    }
    assert forall|i: int| 0 <= i < rows.len() implies has_its_series(
        out,
        #[trigger] rows[i],
    ) by {
        assert(keys.contains(input[i].0));
        let j = choose|j: int| 0 <= j < keys.len() && keys[j] == input[i].0;
        lemma_latest_of(rows, j);
        assert(same_series(rows[i], out[j]));
    }
    assert forall|i: int, j: int| 0 <= i < j < out.len() implies !same_series(
        #[trigger] out[i],
        #[trigger] out[j],
    ) by {
        lemma_latest_of(rows, i);
        lemma_latest_of(rows, j);
        assert(<String as SortKey>::before(keys[i], keys[j]));
        <String as SortKey>::irreflexive(keys[i]);
    }
}

/// Whether a row is of a series.
pub open spec fn is_of(r: PointView, s: RangeView) -> bool {
    key_text(r.metric_name, r.labels) == key_text(s.metric_name, s.labels)
}

/// The timestamps and values of the rows of a series, in the order they came.
pub open spec fn points_of(rows: Seq<PointView>, s: RangeView) -> Seq<(i64, u64)> {
    rows.filter(|r: PointView| is_of(r, s)).map_values(|r: PointView| (r.ts_us, r.value))
}

proof fn lemma_points_of(rows: Seq<PointView>, s: RangeView)
    ensures
        points_of(rows, s) == items_under(
            by_series(rows),
            key_text(s.metric_name, s.labels),
        ).map_values(|r: PointView| (r.ts_us, r.value)),
    decreases rows.len(),
{
    reveal(Seq::filter);
    let k = key_text(s.metric_name, s.labels);
    let f = |r: PointView| (r.ts_us, r.value);
    let out = points_of(rows, s);
    if rows.len() > 0 {
        let rest = rows.drop_last();
        lemma_points_of(rest, s);
        assert(by_series(rows).drop_last() =~= by_series(rest));
        if is_of(rows.last(), s) {
            assert(out =~= points_of(rest, s).push((rows.last().ts_us, rows.last().value)));
            assert(items_under(by_series(rows), k).map_values(f) =~= items_under(
                by_series(rest),
                k,
            ).map_values(f).push((rows.last().ts_us, rows.last().value)));
        } else {
            assert(out =~= points_of(rest, s));
        }
    } else {
        assert(out =~= items_under(by_series(rows), k).map_values(f));
    }
}

/// Whether one of some series is that of a row.
pub open spec fn some_is_of(r: PointView, series: Seq<RangeView>) -> bool {
    exists|i: int| 0 <= i < series.len() && is_of(r, #[trigger] series[i])
}

proof fn lemma_rows_make_series(rows: Seq<PointView>)
    ensures
        forall|i: int|
            0 <= i < series_of(rows).len() ==> {
                let s = #[trigger] series_of(rows)[i];
                &&& s.points.len() > 0
                &&& s.points == points_of(rows, s)
                &&& key_text(s.metric_name, s.labels) == keys_of::<String, PointView>(
                    by_series(rows),
                )[i]
                &&& exists|r: PointView| #[trigger]
                    rows.contains(r) && r.metric_name == s.metric_name && r.labels == s.labels
            },
        forall|k: int| 0 <= k < rows.len() ==> some_is_of(#[trigger] rows[k], series_of(rows)),
{
    let input = by_series(rows);
    let keys = keys_of::<String, PointView>(input);
    let out = series_of(rows);
    lemma_keys_of_exists::<String, PointView>(input);
    assert forall|i: int| 0 <= i < out.len() implies {
        let s = #[trigger] out[i];
        &&& s.points.len() > 0
        &&& s.points == points_of(rows, s)
        &&& key_text(s.metric_name, s.labels) == keys[i]
        &&& exists|r: PointView| #[trigger]
            rows.contains(r) && r.metric_name == s.metric_name && r.labels == s.labels
    } by {
        let s = out[i];
        let members = items_under(input, keys[i]);
        assert(has_key(input, keys[i]));
        lemma_items_under_empty(input, keys[i]);
        lemma_item_comes_from(input, keys[i], 0);
        let w = choose|w: int|
            0 <= w < input.len() && #[trigger] input[w] == (keys[i], members[0]);
        assert(rows[w] == members[0]);
        assert(rows.contains(rows[w]));
        lemma_points_of(rows, s);
    }
    assert forall|k: int| 0 <= k < rows.len() implies some_is_of(#[trigger] rows[k], out) by {
        assert(keys.contains(input[k].0));
        let i = choose|i: int| 0 <= i < keys.len() && keys[i] == input[k].0;
        assert(is_of(rows[k], out[i]));
    }
}

/// Rows make one series for each that occurs, with its name and labels and with the
/// timestamps and values of all of its rows, in the order they came. The series come
/// in the order of their identifying texts.
pub proof fn law_rows_make_series(rows: Seq<PointView>)
    ensures
        forall|i: int|
            0 <= i < series_of(rows).len() ==> {
                let s = #[trigger] series_of(rows)[i];
                &&& s.points.len() > 0
                &&& s.points == points_of(rows, s)
                &&& exists|r: PointView| #[trigger]
                    rows.contains(r) && r.metric_name == s.metric_name && r.labels == s.labels
            },
        forall|i: int, j: int|
            0 <= i < j < series_of(rows).len() ==> text_before(
                key_text((#[trigger] series_of(rows)[i]).metric_name, series_of(rows)[i].labels),
                key_text((#[trigger] series_of(rows)[j]).metric_name, series_of(rows)[j].labels),
            ),
        forall|k: int| 0 <= k < rows.len() ==> some_is_of(#[trigger] rows[k], series_of(rows)),
{
    let input = by_series(rows);
    let keys = keys_of::<String, PointView>(input);
    let out = series_of(rows);
    lemma_keys_of_exists::<String, PointView>(input);
    lemma_rows_make_series(rows);
    assert forall|i: int, j: int| 0 <= i < j < out.len() implies text_before(
        key_text((#[trigger] out[i]).metric_name, out[i].labels),
        key_text((#[trigger] out[j]).metric_name, out[j].labels),
    ) by {
        assert(<String as SortKey>::before(keys[i], keys[j]));
    }
}

/// Value rows are taken one by one: one with a finite value whose series meets the
/// selector's matchers makes a point of its name and labels at the instant asked
/// for, any other makes none.
pub proof fn law_value_rows_make_points(
    a: Seq<ValueRow>,
    b: Seq<ValueRow>,
    row: ValueRow,
    sel: SelectorView,
    time_us: i64,
)
    ensures
        finite_points(a + b, sel, time_us) == finite_points(a, sel, time_us) + finite_points(
            b,
            sel,
            time_us,
        ),
        finite_points(seq![row], sel, time_us) == if row.value is Some
            && is_finite_bits(row.value->0) && meets_all(
            row.metric_name@,
            row.labels@,
            row_matchers(sel.matchers),
        ) {
            seq![
                PointView {
                    metric_name: row.metric_name@,
                    labels: row.labels@,
                    ts_us: time_us,
                    value: row.value->0,
                },
            ]
        } else {
            Seq::empty()
        },
    decreases b.len(),
{
    reveal_with_fuel(finite_points, 2);
    assert(seq![row].drop_last() =~= Seq::empty());
    assert(finite_points(seq![row], sel, time_us) =~= if row.value is Some
        && is_finite_bits(row.value->0) && meets_all(
        row.metric_name@,
        row.labels@,
        row_matchers(sel.matchers),
    ) {
        seq![
            PointView {
                metric_name: row.metric_name@,
                labels: row.labels@,
                ts_us: time_us,
                value: row.value->0,
            },
        ]
    } else {
        Seq::empty()
    });
    if b.len() == 0 {
        assert(a + b =~= a);
        assert(finite_points(a + b, sel, time_us) =~= finite_points(a, sel, time_us)
            + finite_points(b, sel, time_us));
    } else {
        law_value_rows_make_points(a, b.drop_last(), row, sel, time_us);
        assert((a + b).drop_last() =~= a + b.drop_last());
        assert((a + b).last() == b.last());
        assert(finite_points(a + b, sel, time_us) =~= finite_points(a, sel, time_us)
            + finite_points(b, sel, time_us));
    }
}

// ---------- expressions ----------

/// What a function makes of the points of an inner expression, if it has points.
pub open spec fn on_points<T, U>(inner: (Option<T>, Seq<Rows>), f: spec_fn(T) -> U) -> (
    Option<U>,
    Seq<Rows>,
) {
    match inner.0 {
        Some(v) => (Some(f(v)), inner.1),
        None => (None, inner.1),
    }
}

/// `histogram_quantile` takes its quantile of its inner expression's value.
pub proof fn law_quantiles_are_taken_of_the_inner_value<
    C: Fn(BinOp, u64, u64) -> u64,
    W: Fn(i128) -> u64,
    R: Fn(&str) -> Option<u64>,
>(
    ar: Arithmetic<C, W>,
    reader: NumberReader<R>,
    e: &QueryExpr,
    time_us: i64,
    span: Span,
    rows: Seq<Rows>,
)
    requires
        *e is Call,
        ascii_lowered(e->func@) == "histogram_quantile"@,
        e->args@.len() == 2,
        e->args@[0] is NumberLiteral,
    ensures
        instant_value(ar, reader, e, time_us, rows) == on_points(
            instant_value(ar, reader, &e->args@[1], time_us, rows),
            |v: Seq<PointView>|
                histogram_points(ar, reader, v, e->args@[0]->NumberLiteral_0, time_us),
        ),
        range_value(ar, reader, e, span, rows) == on_points(
            range_value(ar, reader, &e->args@[1], span, rows),
            |v: Seq<RangeView>| histogram_series(ar, reader, v, e->args@[0]->NumberLiteral_0),
        ),
{
    law_quantiles_by_their_name(e);
    law_steps_go_inward(e);
}

/// `topk` and `bottomk` of an expression that SQL does not rank rank its value.
pub proof fn law_rankings_are_of_the_inner_value<
    C: Fn(BinOp, u64, u64) -> u64,
    W: Fn(i128) -> u64,
    R: Fn(&str) -> Option<u64>,
>(
    ar: Arithmetic<C, W>,
    reader: NumberReader<R>,
    e: &QueryExpr,
    time_us: i64,
    span: Span,
    rows: Seq<Rows>,
)
    requires
        is_ranking(e),
        !sql_decides(e->modifier, &e->Aggregate_expr),
    ensures
        ({
            let top = is_topk(e->Aggregate_op@);
            let n = count_of(e->param->0->NumberLiteral_0);
            &&& instant_value(ar, reader, e, time_us, rows) == on_points(
                instant_value(ar, reader, &e->Aggregate_expr, time_us, rows),
                |v: Seq<PointView>| top_points(v, n, top, by_ref(e->modifier)),
            )
            &&& range_value(ar, reader, e, span, rows) == on_points(
                range_value(ar, reader, &e->Aggregate_expr, span, rows),
                |v: Seq<RangeView>| top_series(v, n, top, by_ref(e->modifier)),
            )
        }),
{
    law_rankings_by_their_names(e);
    law_steps_go_inward(e);
}

/// An aggregation that SQL does not compute reduces the value of its inner
/// expression.
pub proof fn law_reductions_are_of_the_inner_value<
    C: Fn(BinOp, u64, u64) -> u64,
    W: Fn(i128) -> u64,
    R: Fn(&str) -> Option<u64>,
>(
    ar: Arithmetic<C, W>,
    reader: NumberReader<R>,
    e: &QueryExpr,
    time_us: i64,
    span: Span,
    rows: Seq<Rows>,
)
    requires
        *e is Aggregate,
        named_aggregation(e->Aggregate_op@) is Some,
        !sql_decides(e->modifier, &e->Aggregate_expr),
    ensures
        ({
            let op = named_aggregation(e->Aggregate_op@)->0;
            &&& instant_value(ar, reader, e, time_us, rows) == on_points(
                instant_value(ar, reader, &e->Aggregate_expr, time_us, rows),
                |v: Seq<PointView>| aggregated(ar, v, op, by_ref(e->modifier), time_us),
            )
            &&& range_value(ar, reader, e, span, rows) == on_points(
                range_value(ar, reader, &e->Aggregate_expr, span, rows),
                |v: Seq<RangeView>| aggregated_series(ar, v, op, by_ref(e->modifier)),
            )
        }),
{
    law_reductions_by_their_names(e);
    law_steps_go_inward(e);
}

/// An operator between two expressions is applied to their values, the left one's
/// rows first; one between an expression and a number to the expression's value and
/// the number, each on its side.
pub proof fn law_operators_are_applied_to_the_values<
    C: Fn(BinOp, u64, u64) -> u64,
    W: Fn(i128) -> u64,
    R: Fn(&str) -> Option<u64>,
>(
    ar: Arithmetic<C, W>,
    reader: NumberReader<R>,
    e: &QueryExpr,
    time_us: i64,
    span: Span,
    rows: Seq<Rows>,
)
    requires
        *e is Binary,
        signed_operator(e->Binary_op@) is Some,
        step_of(e) is Operate,
    ensures
        ({
            let op = signed_operator(e->Binary_op@)->0;
            let b = e->return_bool;
            let left: &QueryExpr = &e->lhs;
            let right: &QueryExpr = &e->rhs;
            let now = instant_value(ar, reader, e, time_us, rows);
            let over = range_value(ar, reader, e, span, rows);
            if *left is NumberLiteral && *right is NumberLiteral {
                &&& now == (Some(Seq::<PointView>::empty()), rows)
                &&& over == (Some(Seq::<RangeView>::empty()), rows)
            } else if *left is NumberLiteral {
                let s = left->NumberLiteral_0;
                &&& now == on_points(
                    instant_value(ar, reader, right, time_us, rows),
                    |v: Seq<PointView>| scalar_points(ar, s, v, op, b, true),
                )
                &&& over == on_points(
                    range_value(ar, reader, right, span, rows),
                    |v: Seq<RangeView>| scalar_series(ar, s, v, op, b, true),
                )
            } else if *right is NumberLiteral {
                let s = right->NumberLiteral_0;
                &&& now == on_points(
                    instant_value(ar, reader, left, time_us, rows),
                    |v: Seq<PointView>| scalar_points(ar, s, v, op, b, false),
                )
                &&& over == on_points(
                    range_value(ar, reader, left, span, rows),
                    |v: Seq<RangeView>| scalar_series(ar, s, v, op, b, false),
                )
            } else {
                let (l, after) = instant_value(ar, reader, left, time_us, rows);
                let (r, rest) = instant_value(ar, reader, right, time_us, after);
                let (ls, then) = range_value(ar, reader, left, span, rows);
                let (rs, others) = range_value(ar, reader, right, span, then);
                &&& now.1 == rest
                &&& now.0 is Some == (l is Some && r is Some)
                &&& now.0 is Some ==> now.0->0 == matched_points(ar, l->0, r->0, op, b)
                &&& over.1 == others
                &&& over.0 is Some == (ls is Some && rs is Some)
                &&& over.0 is Some ==> over.0->0 == matched_series(ar, ls->0, rs->0, op, b)
            }
        }),
{
    law_operations_by_their_signs(e);
    law_steps_go_inward(e);
}

/// What a selector and a range function make of the rows of their statement. At an
/// instant a selector shows the latest sample of each series, over a range all of
/// them; a range function shows the values that SQL computed, or those of the
/// windows that end at the steps of the range.
pub proof fn law_selectors_and_range_functions_show_their_rows<
    C: Fn(BinOp, u64, u64) -> u64,
    W: Fn(i128) -> u64,
    R: Fn(&str) -> Option<u64>,
>(
    ar: Arithmetic<C, W>,
    reader: NumberReader<R>,
    e: &QueryExpr,
    time_us: i64,
    span: Span,
    rows: Seq<Rows>,
)
    requires
        rows.len() > 0,
    ensures
        bare_selector(e) is Some && rows[0] is Points ==> {
            let kept = kept_rows(point_views(rows[0]->Points_0@), bare_selector(e)->0@);
            &&& instant_value(ar, reader, e, time_us, rows) == (
                Some(latest_of(kept)),
                rows.skip(1),
            )
            &&& range_value(ar, reader, e, span, rows) == (Some(series_of(kept)), rows.skip(1))
        },
        is_range_function(e, e->args@[0]->range_us as int)
            && rows[0] is Values ==> instant_value(ar, reader, e, time_us, rows) == (
            Some(finite_points(rows[0]->Values_0@, e->args@[0]->vs@, time_us)),
            rows.skip(1),
        ),
        is_range_function(e, e->args@[0]->range_us as int)
            && rows[0] is Points ==> range_value(ar, reader, e, span, rows) == (
            Some(
                window_series(
                    ar,
                    series_of(kept_rows(point_views(rows[0]->Points_0@), e->args@[0]->vs@)),
                    named_function(ascii_lowered(e->func@))->0,
                    e->args@[0]->range_us as int,
                    span.start_us as int,
                    span.end_us as int,
                    span.step_us as int,
                ),
            ),
            rows.skip(1),
        ),
{
    if bare_selector(e) is Some {
        law_selectors_are_fetched(e);
    }
    if is_range_function(e, e->args@[0]->range_us as int) {
        law_range_functions_by_their_names(e);
    }
}

// ---------- rankings over a range ----------

proof fn lemma_flat_contains<T>(lists: Seq<Seq<T>>, x: T)
    ensures
        flat(lists).contains(x) <==> exists|i: int|
            0 <= i < lists.len() && (#[trigger] lists[i]).contains(x),
    decreases lists.len(),
{
    if lists.len() > 0 {
        let rest = lists.drop_last();
        let n = lists.len() - 1;
        lemma_flat_contains(rest, x);
        assert(lists[n] == lists.last());
        let all = flat(lists);
        if all.contains(x) {
            let w = choose|w: int| 0 <= w < all.len() && all[w] == x;
            if w < flat(rest).len() {
                assert(flat(rest)[w] == x);
                assert(flat(rest).contains(x));
                let i = choose|i: int| 0 <= i < rest.len() && (#[trigger] rest[i]).contains(x);
                assert(lists[i].contains(x));
            } else {
                assert(lists[n][w - flat(rest).len()] == x);
                assert(lists[n].contains(x));
            }
        }
        if exists|i: int| 0 <= i < lists.len() && (#[trigger] lists[i]).contains(x) {
            let i = choose|i: int| 0 <= i < lists.len() && (#[trigger] lists[i]).contains(x);
            if i < n {
                assert(rest[i] == lists[i]);
                assert(flat(rest).contains(x));
                let w = choose|w: int| 0 <= w < flat(rest).len() && flat(rest)[w] == x;
                assert(all[w] == x);
            } else {
                let w = choose|w: int| 0 <= w < lists[n].len() && lists[n][w] == x;
                assert(all[flat(rest).len() + w] == x);
            }
        }
    }
}

proof fn lemma_points_at_group(
    series: Seq<RangeView>,
    modifier: Option<&Grouping>,
    g: Pairs,
    ts: i64,
)
    ensures
        points_at(items_under(series_by_group(series, modifier), g), ts) == items_under(
            points_by_group(points_at(series, ts), modifier),
            g,
        ),
    decreases series.len(),
{
    let input = series_by_group(series, modifier);
    if series.len() > 0 {
        let rest = series.drop_last();
        let s = series.last();
        lemma_points_at_group(rest, modifier, g, ts);
        assert(input.drop_last() =~= series_by_group(rest, modifier));
        let before = items_under(series_by_group(rest, modifier), g);
        if retained(s.labels, modifier) == g {
            assert(before.push(s).drop_last() =~= before);
        }
        if value_at(s.points, ts) is Some {
            let all = points_at(series, ts);
            assert(points_by_group(all, modifier).drop_last() =~= points_by_group(
                points_at(rest, ts),
                modifier,
            ));
        }
    }
}

proof fn lemma_points_at(series: Seq<RangeView>, ts: i64, i: int)
    requires
        0 <= i < points_at(series, ts).len(),
    ensures
        points_at(series, ts)[i].ts_us == ts,
        exists|k: int|
            0 <= k < series.len() && (#[trigger] series[k]).metric_name == points_at(
                series,
                ts,
            )[i].metric_name && series[k].labels == points_at(series, ts)[i].labels && value_at(
                series[k].points,
                ts,
            ) is Some,
    decreases series.len(),
{
    let rest = series.drop_last();
    let before = points_at(rest, ts);
    if i < before.len() {
        lemma_points_at(rest, ts, i);
        let k = choose|k: int|
            0 <= k < rest.len() && (#[trigger] rest[k]).metric_name == before[i].metric_name
                && rest[k].labels == before[i].labels && value_at(rest[k].points, ts) is Some;
        assert(series[k] == rest[k]);
        assert(points_at(series, ts)[i] == before[i]);
    } else {
        assert(series[series.len() - 1] == series.last());
    }
}

proof fn lemma_has_time(points: Seq<(i64, u64)>, ts: i64)
    requires
        value_at(points, ts) is Some,
    ensures
        has_key(points, ts),
    decreases points.len(),
{
    if points.last().0 == ts {
        assert(points[points.len() - 1].0 == ts);
    } else {
        let rest = points.drop_last();
        lemma_has_time(rest, ts);
        let w = choose|w: int| 0 <= w < rest.len() && (#[trigger] rest[w]).0 == ts;
        assert(points[w].0 == ts);
    }
}

proof fn lemma_all_points_have(series: Seq<RangeView>, ts: i64, k: int)
    requires
        0 <= k < series.len(),
        has_key(series[k].points, ts),
    ensures
        has_key(all_points(series), ts),
    decreases series.len(),
{
    let all = all_points(series);
    let rest = series.drop_last();
    let before = all_points(rest);
    if k < rest.len() {
        assert(rest[k] == series[k]);
        lemma_all_points_have(rest, ts, k);
        let w = choose|w: int| 0 <= w < before.len() && (#[trigger] before[w]).0 == ts;
        assert(all[w].0 == ts);
    } else {
        let pts = series.last().points;
        let w = choose|w: int| 0 <= w < pts.len() && (#[trigger] pts[w]).0 == ts;
        assert(all[before.len() + w].0 == ts);
    }
}

/// What is chosen of a group over time, at a time.
proof fn lemma_chosen_over_time(members: Seq<RangeView>, n: usize, top: bool, p: PointView)
    ensures
        chosen_over_time(members, n, top).contains(p) <==> chosen(
            points_at(members, p.ts_us),
            n,
            top,
        ).contains(p),
{
    let points = all_points(members);
    let times = keys_of::<i64, u64>(points);
    let lists = Seq::new(times.len(), |i: int| chosen(points_at(members, times[i]), n, top));
    lemma_keys_of_exists::<i64, u64>(points);
    lemma_flat_contains(lists, p);
    if chosen_over_time(members, n, top).contains(p) {
        let i = choose|i: int| 0 <= i < lists.len() && (#[trigger] lists[i]).contains(p);
        let c = chosen(points_at(members, times[i]), n, top);
        law_topk_keeps_n(points_at(members, times[i]), n, top);
        let w = choose|w: int| 0 <= w < c.len() && c[w] == p;
        assert(points_at(members, times[i]).contains(c[w]));
        let x = choose|x: int|
            0 <= x < points_at(members, times[i]).len() && points_at(members, times[i])[x] == p;
        lemma_points_at(members, times[i], x);
    }
    let c = chosen(points_at(members, p.ts_us), n, top);
    if c.contains(p) {
        law_topk_keeps_n(points_at(members, p.ts_us), n, top);
        let w = choose|w: int| 0 <= w < c.len() && c[w] == p;
        assert(points_at(members, p.ts_us).contains(c[w]));
        let x = choose|x: int|
            0 <= x < points_at(members, p.ts_us).len() && points_at(members, p.ts_us)[x] == p;
        lemma_points_at(members, p.ts_us, x);
        let k = choose|k: int|
            0 <= k < members.len() && (#[trigger] members[k]).metric_name == p.metric_name
                && members[k].labels == p.labels && value_at(members[k].points, p.ts_us) is Some;
        lemma_has_time(members[k].points, p.ts_us);
        lemma_all_points_have(members, p.ts_us, k);
        let y = choose|y: int| 0 <= y < points.len() && (#[trigger] points[y]).0 == p.ts_us;
        assert(times.contains(points[y].0));
        let i = choose|i: int| 0 <= i < times.len() && times[i] == p.ts_us;
        assert(lists[i].contains(p));
    }
}

/// The rows that a ranking over a range keeps.
spec fn ranked_rows(series: Seq<RangeView>, n: usize, top: bool, modifier: Option<&Grouping>) -> Seq<
    PointView,
> {
    let input = series_by_group(series, modifier);
    let keys = keys_of::<Labels, RangeView>(input);
    flat(Seq::new(keys.len(), |i: int| chosen_over_time(items_under(input, keys[i]), n, top)))
}

proof fn lemma_ranked_rows(
    series: Seq<RangeView>,
    n: usize,
    top: bool,
    modifier: Option<&Grouping>,
    p: PointView,
)
    requires
        n > 0,
    ensures
        ranked_rows(series, n, top, modifier).contains(p) <==> top_points(
            points_at(series, p.ts_us),
            n,
            top,
            modifier,
        ).contains(p),
{
    let input = series_by_group(series, modifier);
    let keys = keys_of::<Labels, RangeView>(input);
    let lists = Seq::new(
        keys.len(),
        |i: int| chosen_over_time(items_under(input, keys[i]), n, top),
    );
    let now = points_at(series, p.ts_us);
    let filed = points_by_group(now, modifier);
    let groups = keys_of::<Labels, PointView>(filed);
    let best = Seq::new(groups.len(), |i: int| chosen(items_under(filed, groups[i]), n, top));
    lemma_keys_of_exists::<Labels, RangeView>(input);
    lemma_keys_of_exists::<Labels, PointView>(filed);
    lemma_flat_contains(lists, p);
    lemma_flat_contains(best, p);
    if flat(lists).contains(p) {
        let i = choose|i: int| 0 <= i < lists.len() && (#[trigger] lists[i]).contains(p);
        let members = items_under(input, keys[i]);
        lemma_chosen_over_time(members, n, top, p);
        lemma_points_at_group(series, modifier, keys[i], p.ts_us);
        let c = chosen(items_under(filed, keys[i]), n, top);
        assert(c.contains(p));
        law_topk_keeps_n(items_under(filed, keys[i]), n, top);
        let w = choose|w: int| 0 <= w < c.len() && c[w] == p;
        assert(items_under(filed, keys[i]).contains(c[w]));
        assert(items_under(filed, keys[i]).len() > 0);
        lemma_items_under_empty(filed, keys[i]);
        let x = choose|x: int| 0 <= x < filed.len() && (#[trigger] filed[x]).0 == keys[i];
        assert(groups.contains(filed[x].0));
        let j = choose|j: int| 0 <= j < groups.len() && groups[j] == keys[i];
        assert(best[j].contains(p));
    }
    if flat(best).contains(p) {
        let j = choose|j: int| 0 <= j < best.len() && (#[trigger] best[j]).contains(p);
        let g = groups[j];
        assert(has_key(filed, groups[j]));
        let x = choose|x: int| 0 <= x < filed.len() && (#[trigger] filed[x]).0 == g;
        lemma_points_at(series, p.ts_us, x);
        let k = choose|k: int|
            0 <= k < series.len() && (#[trigger] series[k]).metric_name == now[x].metric_name
                && series[k].labels == now[x].labels && value_at(series[k].points, p.ts_us) is Some;
        assert(input[k].0 == g);
        assert(keys.contains(input[k].0));
        let i = choose|i: int| 0 <= i < keys.len() && keys[i] == g;
        lemma_points_at_group(series, modifier, g, p.ts_us);
        lemma_chosen_over_time(items_under(input, g), n, top, p);
        assert(lists[i].contains(p));
    }
}

/// Whether series have different identifying texts.
pub open spec fn all_differ(series: Seq<RangeView>) -> bool {
    forall|i: int, j: int|
        0 <= i < j < series.len() ==> key_text(
            (#[trigger] series[i]).metric_name,
            series[i].labels,
        ) != key_text((#[trigger] series[j]).metric_name, series[j].labels)
}

/// Whether one of some series has a point, with its name and its labels.
pub open spec fn shows(series: Seq<RangeView>, p: PointView) -> bool {
    exists|i: int|
        0 <= i < series.len() && (#[trigger] series[i]).metric_name == p.metric_name
            && series[i].labels == p.labels && series[i].points.contains((p.ts_us, p.value))
}

proof fn lemma_from_series(
    series: Seq<RangeView>,
    n: usize,
    top: bool,
    modifier: Option<&Grouping>,
    r: PointView,
)
    requires
        n > 0,
        ranked_rows(series, n, top, modifier).contains(r),
    ensures
        exists|k: int|
            0 <= k < series.len() && (#[trigger] series[k]).metric_name == r.metric_name
                && series[k].labels == r.labels,
{
    lemma_ranked_rows(series, n, top, modifier, r);
    let now = points_at(series, r.ts_us);
    let filed = points_by_group(now, modifier);
    let groups = keys_of::<Labels, PointView>(filed);
    let best = Seq::new(groups.len(), |i: int| chosen(items_under(filed, groups[i]), n, top));
    lemma_flat_contains(best, r);
    let j = choose|j: int| 0 <= j < best.len() && (#[trigger] best[j]).contains(r);
    let members = items_under(filed, groups[j]);
    law_topk_keeps_n(members, n, top);
    let w = choose|w: int| 0 <= w < best[j].len() && best[j][w] == r;
    assert(members.contains(chosen(members, n, top)[w]));
    let x = choose|x: int| 0 <= x < members.len() && members[x] == r;
    lemma_item_comes_from(filed, groups[j], x);
    let y = choose|y: int|
        0 <= y < filed.len() && #[trigger] filed[y] == (groups[j], members[x]);
    assert(now[y] == r);
    lemma_points_at(series, r.ts_us, y);
}

/// Over a range, a ranking is that of each time by itself: a series shows a point in
/// the end exactly where the point is among the best of its time.
pub proof fn law_each_time_is_ranked_by_itself(
    series: Seq<RangeView>,
    n: usize,
    top: bool,
    modifier: Option<&Grouping>,
    p: PointView,
)
    requires
        all_differ(series),
    ensures
        shows(top_series(series, n, top, modifier), p) <==> top_points(
            points_at(series, p.ts_us),
            n,
            top,
            modifier,
        ).contains(p),
{
    if n > 0 {
        let rows = ranked_rows(series, n, top, modifier);
        let out = top_series(series, n, top, modifier);
        lemma_ranked_rows(series, n, top, modifier, p);
        lemma_rows_make_series(rows);
        assert(out == series_of(rows));
        if shows(out, p) {
            let i = choose|i: int|
                0 <= i < out.len() && (#[trigger] out[i]).metric_name == p.metric_name
                    && out[i].labels == p.labels && out[i].points.contains((p.ts_us, p.value));
            let s = out[i];
            lemma_point_of(rows, s, p.ts_us, p.value);
            let r = choose|r: PointView| #[trigger]
                rows.contains(r) && is_of(r, s) && r.ts_us == p.ts_us && r.value == p.value;
            let q = choose|q: PointView| #[trigger]
                rows.contains(q) && q.metric_name == s.metric_name && q.labels == s.labels;
            lemma_from_series(series, n, top, modifier, r);
            lemma_from_series(series, n, top, modifier, q);
            let a = choose|a: int|
                0 <= a < series.len() && (#[trigger] series[a]).metric_name == r.metric_name
                    && series[a].labels == r.labels;
            let b = choose|b: int|
                0 <= b < series.len() && (#[trigger] series[b]).metric_name == q.metric_name
                    && series[b].labels == q.labels;
            assert(a == b);
            assert(r == p);
        }
        if rows.contains(p) {
            let k = choose|k: int| 0 <= k < rows.len() && rows[k] == p;
            assert(some_is_of(rows[k], out));
            let i = choose|i: int| 0 <= i < out.len() && is_of(p, #[trigger] out[i]);
            let s = out[i];
            let q = choose|q: PointView| #[trigger]
                rows.contains(q) && q.metric_name == s.metric_name && q.labels == s.labels;
            lemma_from_series(series, n, top, modifier, p);
            lemma_from_series(series, n, top, modifier, q);
            let a = choose|a: int|
                0 <= a < series.len() && (#[trigger] series[a]).metric_name == p.metric_name
                    && series[a].labels == p.labels;
            let b = choose|b: int|
                0 <= b < series.len() && (#[trigger] series[b]).metric_name == q.metric_name
                    && series[b].labels == q.labels;
            assert(a == b);
            lemma_row_is_point(rows, s, k);
        }
    }
}

proof fn lemma_point_of(rows: Seq<PointView>, s: RangeView, ts: i64, v: u64)
    requires
        points_of(rows, s).contains((ts, v)),
    ensures
        exists|r: PointView| #[trigger]
            rows.contains(r) && is_of(r, s) && r.ts_us == ts && r.value == v,
{
    let f = |r: PointView| is_of(r, s);
    let kept = rows.filter(f);
    let all = points_of(rows, s);
    let w = choose|w: int| 0 <= w < all.len() && all[w] == (ts, v);
    assert(kept.contains(kept[w]));
    rows.lemma_filter_pred(f, w);
    rows.lemma_filter_contains_rev(f, kept[w]);
}

proof fn lemma_row_is_point(rows: Seq<PointView>, s: RangeView, k: int)
    requires
        0 <= k < rows.len(),
        is_of(rows[k], s),
    ensures
        points_of(rows, s).contains((rows[k].ts_us, rows[k].value)),
{
    let f = |r: PointView| is_of(r, s);
    let kept = rows.filter(f);
    assert(f(rows[k]));
    rows.lemma_filter_contains(f, k);
    let w = choose|w: int| 0 <= w < kept.len() && kept[w] == rows[k];
    assert(points_of(rows, s)[w] == (rows[k].ts_us, rows[k].value));
}

// ---------- rows that SQL has ranked and computed ----------

/// What SQL has ranked is shown as it came; of what it has computed between a number
/// and a selector, the rows that meet the selector's patterns are; of what it has
/// aggregated, the groups with their labels are.
pub proof fn law_what_sql_has_computed_is_shown<
    C: Fn(BinOp, u64, u64) -> u64,
    W: Fn(i128) -> u64,
    R: Fn(&str) -> Option<u64>,
>(
    ar: Arithmetic<C, W>,
    reader: NumberReader<R>,
    e: &QueryExpr,
    time_us: i64,
    span: Span,
    rows: Seq<Rows>,
)
    requires
        rows.len() > 0,
    ensures
        (step_of(e) matches Step::TopKSql { n, .. } && n > 0) && rows[0] is Points ==> {
            let shown = point_views(rows[0]->Points_0@);
            &&& instant_value(ar, reader, e, time_us, rows) == (Some(shown), rows.skip(1))
            &&& range_value(ar, reader, e, span, rows) == (Some(series_of(shown)), rows.skip(1))
        },
        step_of(e) matches Step::ScalarSql { sel, .. } ==> (rows[0] is Points ==> {
            let shown = kept_rows(point_views(rows[0]->Points_0@), sel@);
            &&& instant_value(ar, reader, e, time_us, rows) == (Some(shown), rows.skip(1))
            &&& range_value(ar, reader, e, span, rows) == (Some(series_of(shown)), rows.skip(1))
        }),
        step_of(e) matches Step::AggregateSql { modifier, .. } ==> (rows[0] is Groups && rows_fit(
            rows[0]->Groups_0@,
            group_keys(modifier),
        ) ==> {
            let g = rows[0]->Groups_0@;
            &&& instant_value(ar, reader, e, time_us, rows) == (
                Some(aggregate_points(g, group_keys(modifier))),
                rows.skip(1),
            )
            &&& range_value(ar, reader, e, span, rows) == (
                Some(aggregate_series(g, group_keys(modifier))),
                rows.skip(1),
            )
        }),
{
}

/// The text that a matcher is held against: the metric's name for `__name__`, else
/// the value of the label, which is empty where the series has none.
pub open spec fn subject(p: PointView, name: Seq<char>) -> Seq<char> {
    if name == "__name__"@ {
        p.metric_name
    } else {
        match lookup(p.labels, name) {
            Some(v) => v,
            None => Seq::empty(),
        }
    }
}

/// Whether a series meets a pattern matcher: `=~` where the pattern is one and
/// matches, `!~` where not. Other matchers are not asked.
pub open spec fn meets(p: PointView, m: MatcherView) -> bool {
    let matched = is_pattern(m.value) && pattern_matches(m.value, subject(p, m.name));
    &&& m.op is Re ==> matched
    &&& m.op is NotRe ==> !matched
}

proof fn lemma_row_matchers(p: PointView, m: Seq<MatcherView>)
    ensures
        meets_all(p.metric_name, p.labels, row_matchers(m)) <==> (forall|i: int|
            0 <= i < m.len() ==> meets(p, #[trigger] m[i])),
    decreases m.len(),
{
    let r = row_matchers(m);
    if m.len() > 0 {
        let rest = m.drop_last();
        let n = m.len() - 1;
        let before = row_matchers(rest);
        lemma_row_matchers(p, rest);
        assert(m[n] == m.last());
        let asked = m.last().op is Re || m.last().op is NotRe;
        if forall|i: int| 0 <= i < m.len() ==> meets(p, #[trigger] m[i]) {
            assert forall|i: int| 0 <= i < rest.len() implies meets(p, #[trigger] rest[i]) by {
                assert(rest[i] == m[i]);
            }
            assert(meets(p, m[n]));
            assert forall|i: int| 0 <= i < r.len() implies series_matches(
                p.metric_name,
                p.labels,
                #[trigger] r[i],
            ) by {
                if i < before.len() {
                    assert(r[i] == before[i]);
                }
            }
        }
        if meets_all(p.metric_name, p.labels, r) {
            assert forall|i: int| 0 <= i < before.len() implies series_matches(
                p.metric_name,
                p.labels,
                #[trigger] before[i],
            ) by {
                assert(r[i] == before[i]);
            }
            assert forall|i: int| 0 <= i < m.len() implies meets(p, #[trigger] m[i]) by {
                if i < n {
                    assert(rest[i] == m[i]);
                } else if asked {
                    assert(r[r.len() - 1] == m[n]);
                }
            }
        }
    }
}

/// Rows are kept one by one, in order: just those whose series meet every pattern
/// of the selector.
pub proof fn law_rows_are_kept_by_the_patterns(
    a: Seq<PointView>,
    b: Seq<PointView>,
    p: PointView,
    sel: SelectorView,
)
    ensures
        kept_rows(a + b, sel) == kept_rows(a, sel) + kept_rows(b, sel),
        kept_rows(seq![p], sel) == if forall|i: int|
            0 <= i < sel.matchers.len() ==> meets(p, #[trigger] sel.matchers[i]) {
            seq![p]
        } else {
            Seq::empty()
        },
{
    let f = |x: PointView| meets_all(x.metric_name, x.labels, row_matchers(sel.matchers));
    Seq::filter_distributes_over_add(a, b, f);
    lemma_row_matchers(p, sel.matchers);
    reveal(Seq::filter);
    reveal_with_fuel(Seq::filter, 2);
    assert(seq![p].drop_last() =~= Seq::empty());
    assert(kept_rows(seq![p], sel) =~= if f(p) {
        seq![p]
    } else {
        Seq::empty()
    });
}

} // verus!
