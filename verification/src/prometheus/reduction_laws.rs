//! What aggregations compute, and of which points.

use vstd::prelude::*;
use crate::double::{is_finite_bits, less_bits, INFINITE};
use crate::double_laws::{law_zero_and_one, number};
use crate::labels::{pairs_before, Labels, Pairs};
use crate::ordered::{
    has_key, items_under, keys_of, lemma_items_under_empty, lemma_keys_of_exists, SortKey,
};
use crate::prometheus::aggregate::{
    aggregated, aggregated_series, all_points, points_by_group, reduced_by_time, retained,
    series_by_group,
};
use crate::prometheus::ast::Grouping;
use crate::prometheus::numbers::{
    law_greatest, law_least, reduced, total, Arithmetic, NEGATIVE_INFINITE,
};
use crate::prometheus::operate_laws::ascending;
use crate::prometheus::plan::{AggOp, BinOp};
use crate::prometheus::quantile_laws::exact;
use crate::prometheus::ranking_laws::{group, lemma_group};
use crate::prometheus::rows::{PointView, RangeView};
use crate::prometheus::series::with_points;
use crate::prometheus::window_laws::exact_whole;
use crate::reals::lemma_div_mul;

verus! {

// ---------- values ----------

/// The sum of the numbers that values stand for.
pub open spec fn real_sum(values: Seq<u64>) -> real
    decreases values.len(),
{
    if values.len() == 0 {
        0real
    } else {
        real_sum(values.drop_last()) + number(values.last())
    }
}

/// Whether the arithmetic adds values up, from the first on, without rounding.
pub open spec fn sums_up<C: Fn(BinOp, u64, u64) -> u64, W: Fn(i128) -> u64>(
    ar: Arithmetic<C, W>,
    values: Seq<u64>,
) -> bool {
    &&& forall|i: int| 0 <= i < values.len() ==> is_finite_bits(#[trigger] values[i])
    &&& forall|k: int|
        1 <= k < values.len() ==> exact(
            ar,
            BinOp::Add,
            total(ar, values.take(k)),
            #[trigger] values[k],
        )
}

/// `sum` is the sum.
pub proof fn law_sum<C: Fn(BinOp, u64, u64) -> u64, W: Fn(i128) -> u64>(
    ar: Arithmetic<C, W>,
    values: Seq<u64>,
)
    requires
        sums_up(ar, values),
    ensures
        is_finite_bits(reduced(ar, AggOp::Sum, values)),
        number(reduced(ar, AggOp::Sum, values)) == real_sum(values),
    decreases values.len(),
{
    law_zero_and_one();
    if values.len() > 0 {
        let n = values.len() - 1;
        let rest = values.drop_last();
        assert(rest =~= values.take(n));
        assert(values[n] == values.last());
        assert forall|i: int| 0 <= i < rest.len() implies is_finite_bits(#[trigger] rest[i]) by {
            assert(rest[i] == values[i]);
        }
        assert forall|k: int| 1 <= k < rest.len() implies exact(
            ar,
            BinOp::Add,
            total(ar, rest.take(k)),
            #[trigger] rest[k],
        ) by {
            assert(rest[k] == values[k]);
            assert(rest.take(k) =~= values.take(k));
        }
        law_sum(ar, rest);
        if n == 0 {
            assert(rest.len() == 0);
            assert(values[0] == values.last());
        }
    }
}

/// `avg` times the number of values is the sum.
pub proof fn law_average<C: Fn(BinOp, u64, u64) -> u64, W: Fn(i128) -> u64>(
    ar: Arithmetic<C, W>,
    values: Seq<u64>,
)
    requires
        0 < values.len() <= i128::MAX,
        sums_up(ar, values),
        exact_whole(ar, values.len() as int),
        exact(ar, BinOp::Div, reduced(ar, AggOp::Sum, values), ar.number(values.len() as i128)),
    ensures
        number(reduced(ar, AggOp::Avg, values)) * (values.len() as int) as real == real_sum(values),
{
    law_sum(ar, values);
    lemma_div_mul(real_sum(values), (values.len() as int) as real);
}

/// Of nothing the sum and the average are zero, nothing is less than the least and
/// nothing greater than the greatest.
pub proof fn law_reductions_of_nothing<C: Fn(BinOp, u64, u64) -> u64, W: Fn(i128) -> u64>(
    ar: Arithmetic<C, W>,
    v: u64,
)
    ensures
        number(reduced(ar, AggOp::Sum, Seq::empty())) == 0real,
        number(reduced(ar, AggOp::Avg, Seq::empty())) == 0real,
        !less_bits(reduced(ar, AggOp::Min, Seq::empty()), v),
        !less_bits(v, reduced(ar, AggOp::Max, Seq::empty())),
{
    law_zero_and_one();
}

/// `count` is the number of values.
pub proof fn law_count<C: Fn(BinOp, u64, u64) -> u64, W: Fn(i128) -> u64>(
    ar: Arithmetic<C, W>,
    values: Seq<u64>,
)
    requires
        values.len() <= i128::MAX,
        exact_whole(ar, values.len() as int),
    ensures
        number(reduced(ar, AggOp::Count, values)) == (values.len() as int) as real,
{
}

/// `min` is one of the values that none is less than, and `max` one that none is
/// greater than. Of no values, or of NaNs alone, they are the infinities.
pub proof fn law_extremes<C: Fn(BinOp, u64, u64) -> u64, W: Fn(i128) -> u64>(
    ar: Arithmetic<C, W>,
    values: Seq<u64>,
)
    ensures
        reduced(ar, AggOp::Min, values) == INFINITE || values.contains(
            reduced(ar, AggOp::Min, values),
        ),
        forall|i: int|
            0 <= i < values.len() ==> !less_bits(
                #[trigger] values[i],
                reduced(ar, AggOp::Min, values),
            ),
        reduced(ar, AggOp::Max, values) == NEGATIVE_INFINITE || values.contains(
            reduced(ar, AggOp::Max, values),
        ),
        forall|i: int|
            0 <= i < values.len() ==> !less_bits(
                reduced(ar, AggOp::Max, values),
                #[trigger] values[i],
            ),
{
    law_least(values);
    law_greatest(values);
}

// ---------- groups of points ----------

/// Whether one of some points has the labels.
pub open spec fn some_has(points: Seq<PointView>, g: Pairs) -> bool {
    exists|i: int| 0 <= i < points.len() && (#[trigger] points[i]).labels == g
}

/// An aggregation gives one nameless point of each group that has points, at the
/// instant asked for: the reduction of the group's values. The groups come in the
/// order of their labels.
pub proof fn law_each_group_is_reduced<C: Fn(BinOp, u64, u64) -> u64, W: Fn(i128) -> u64>(
    ar: Arithmetic<C, W>,
    points: Seq<PointView>,
    op: AggOp,
    modifier: Option<&Grouping>,
    time_us: i64,
)
    ensures
        ({
            let out = aggregated(ar, points, op, modifier, time_us);
            &&& forall|i: int|
                0 <= i < out.len() ==> {
                    let p = #[trigger] out[i];
                    let members = group(points, modifier, p.labels);
                    &&& p.metric_name == Seq::<char>::empty()
                    &&& p.ts_us == time_us
                    &&& members.len() > 0
                    &&& p.value == reduced(ar, op, members.map_values(|m: PointView| m.value))
                }
            &&& forall|i: int, j: int|
                0 <= i < j < out.len() ==> pairs_before(
                    (#[trigger] out[i]).labels,
                    (#[trigger] out[j]).labels,
                )
            &&& forall|g: Pairs|
                (#[trigger] group(points, modifier, g)).len() > 0 ==> some_has(out, g)
        }),
{
    let out = aggregated(ar, points, op, modifier, time_us);
    let input = points_by_group(points, modifier);
    let keys = keys_of::<Labels, PointView>(input);
    lemma_keys_of_exists::<Labels, PointView>(input);
    assert forall|i: int| 0 <= i < out.len() implies {
        let p = #[trigger] out[i];
        let members = group(points, modifier, p.labels);
        &&& p.metric_name == Seq::<char>::empty()
        &&& p.ts_us == time_us
        &&& members.len() > 0
        &&& p.value == reduced(ar, op, members.map_values(|m: PointView| m.value))
    } by {
        lemma_group(points, modifier, keys[i]);
        assert(has_key(input, keys[i]));
        lemma_items_under_empty(input, keys[i]);
    }
    assert forall|i: int, j: int| 0 <= i < j < out.len() implies pairs_before(
        (#[trigger] out[i]).labels,
        (#[trigger] out[j]).labels,
    ) by {
        assert(<Labels as SortKey>::before(keys[i], keys[j]));
    }
    assert forall|g: Pairs| (#[trigger] group(points, modifier, g)).len() > 0 implies some_has(
        out,
        g,
    ) by {
        lemma_group(points, modifier, g);
        lemma_items_under_empty(input, g);
        let w = choose|w: int| 0 <= w < input.len() && (#[trigger] input[w]).0 == g;
        assert(keys.contains(input[w].0));
        let i = choose|i: int| 0 <= i < keys.len() && keys[i] == g;
        assert(out[i].labels == g);
    }
}

// ---------- groups of series ----------

/// The series of a group.
pub open spec fn series_group(
    series: Seq<RangeView>,
    modifier: Option<&Grouping>,
    g: Pairs,
) -> Seq<RangeView> {
    series.filter(|s: RangeView| retained(s.labels, modifier) == g)
}

/// The series of a group are those filed under its labels.
pub proof fn lemma_series_group(series: Seq<RangeView>, modifier: Option<&Grouping>, g: Pairs)
    ensures
        series_group(series, modifier, g) == items_under(series_by_group(series, modifier), g),
    decreases series.len(),
{
    reveal(Seq::filter);
    if series.len() > 0 {
        lemma_series_group(series.drop_last(), modifier, g);
        assert(series_by_group(series, modifier).drop_last() =~= series_by_group(
            series.drop_last(),
            modifier,
        ));
    }
}

/// The values that points have at a time.
pub open spec fn values_there(points: Seq<(i64, u64)>, ts: i64) -> Seq<u64> {
    points.filter(|p: (i64, u64)| p.0 == ts).map_values(|p: (i64, u64)| p.1)
}

/// The values that series have at a time, series by series.
pub open spec fn values_at_time(series: Seq<RangeView>, ts: i64) -> Seq<u64>
    decreases series.len(),
{
    if series.len() == 0 {
        Seq::empty()
    } else {
        values_at_time(series.drop_last(), ts) + values_there(series.last().points, ts)
    }
}

proof fn lemma_at_time(points: Seq<(i64, u64)>, ts: i64)
    ensures
        values_there(points, ts) == items_under(points, ts),
    decreases points.len(),
{
    reveal(Seq::filter);
    let there = values_there(points, ts);
    if points.len() > 0 {
        let rest = points.drop_last();
        lemma_at_time(rest, ts);
        if points.last().0 == ts {
            assert(there =~= values_there(rest, ts).push(points.last().1));
        } else {
            assert(there =~= values_there(rest, ts));
        }
    } else {
        assert(there =~= Seq::empty());
    }
}

/// The values at a time are those filed under it.
pub proof fn lemma_values_at_time(series: Seq<RangeView>, ts: i64)
    ensures
        values_at_time(series, ts) == items_under(all_points(series), ts),
    decreases series.len(),
{
    if series.len() > 0 {
        lemma_values_at_time(series.drop_last(), ts);
        lemma_at_time(series.last().points, ts);
        crate::ordered::lemma_items_under_join(
            all_points(series.drop_last()),
            series.last().points,
            ts,
        );
    }
}

proof fn lemma_reduced_by_time<C: Fn(BinOp, u64, u64) -> u64, W: Fn(i128) -> u64>(
    ar: Arithmetic<C, W>,
    op: AggOp,
    series: Seq<RangeView>,
)
    ensures
        ({
            let out = reduced_by_time(ar, op, all_points(series));
            &&& ascending(out)
            &&& forall|ts: i64, v: u64| #[trigger]
                out.contains((ts, v)) <==> values_at_time(series, ts).len() > 0 && v == reduced(
                    ar,
                    op,
                    values_at_time(series, ts),
                )
        }),
{
    let points = all_points(series);
    let out = reduced_by_time(ar, op, points);
    let times = keys_of::<i64, u64>(points);
    lemma_keys_of_exists::<i64, u64>(points);
    assert forall|i: int, j: int| 0 <= i < j < out.len() implies (#[trigger] out[i]).0 < (
    #[trigger] out[j]).0 by {
        assert(<i64 as SortKey>::before(times[i], times[j]));
    }
    assert forall|ts: i64, v: u64| #[trigger] out.contains((ts, v)) <==> values_at_time(
        series,
        ts,
    ).len() > 0 && v == reduced(ar, op, values_at_time(series, ts)) by {
        lemma_values_at_time(series, ts);
        lemma_items_under_empty(points, ts);
        if out.contains((ts, v)) {
            let i = choose|i: int| 0 <= i < out.len() && out[i] == (ts, v);
            assert(has_key(points, times[i]));
        }
        if values_at_time(series, ts).len() > 0 && v == reduced(
            ar,
            op,
            values_at_time(series, ts),
        ) {
            let w = choose|w: int| 0 <= w < points.len() && (#[trigger] points[w]).0 == ts;
            assert(times.contains(points[w].0));
            let i = choose|i: int| 0 <= i < times.len() && times[i] == ts;
            assert(out[i] == (ts, v));
        }
    }
}

/// Of a list of series just those with points are left.
pub proof fn lemma_with_points_at(series: Seq<RangeView>)
    ensures
        forall|i: int|
            0 <= i < with_points(series).len() ==> series.contains(
                #[trigger] with_points(series)[i],
            ) && with_points(series)[i].points.len() > 0,
        forall|i: int|
            0 <= i < series.len() && (#[trigger] series[i]).points.len() > 0 ==> with_points(
                series,
            ).contains(series[i]),
    decreases series.len(),
{
    let out = with_points(series);
    if series.len() > 0 {
        let rest = series.drop_last();
        let before = with_points(rest);
        lemma_with_points_at(rest);
        let n = series.len() - 1;
        assert(series[n] == series.last());
        assert forall|i: int| 0 <= i < out.len() implies series.contains(#[trigger] out[i])
            && out[i].points.len() > 0 by {
            if i < before.len() {
                assert(out[i] == before[i]);
                let k = choose|k: int| 0 <= k < rest.len() && rest[k] == before[i];
                assert(series[k] == out[i]);
            }
        }
        assert forall|i: int| 0 <= i < series.len() && (#[trigger] series[i]).points.len()
            > 0 implies out.contains(series[i]) by {
            if i < n {
                assert(rest[i] == series[i]);
                let k = choose|k: int| 0 <= k < before.len() && before[k] == rest[i];
                assert(out[k] == series[i]);
            } else {
                assert(out[out.len() - 1] == series[i]);
            }
        }
    }
}

/// Series that are left keep their order.
pub proof fn lemma_with_points_ordered(series: Seq<RangeView>)
    requires
        forall|i: int, j: int|
            0 <= i < j < series.len() ==> pairs_before(
                (#[trigger] series[i]).labels,
                (#[trigger] series[j]).labels,
            ),
    ensures
        forall|i: int, j: int|
            0 <= i < j < with_points(series).len() ==> pairs_before(
                (#[trigger] with_points(series)[i]).labels,
                (#[trigger] with_points(series)[j]).labels,
            ),
    decreases series.len(),
{
    let out = with_points(series);
    if series.len() > 0 {
        let rest = series.drop_last();
        let n = series.len() - 1;
        assert forall|i: int, j: int| 0 <= i < j < rest.len() implies pairs_before(
            (#[trigger] rest[i]).labels,
            (#[trigger] rest[j]).labels,
        ) by {
            assert(pairs_before(series[i].labels, series[j].labels));
        }
        lemma_with_points_ordered(rest);
        lemma_with_points_at(rest);
        let before = with_points(rest);
        assert forall|i: int, j: int| 0 <= i < j < out.len() implies pairs_before(
            (#[trigger] out[i]).labels,
            (#[trigger] out[j]).labels,
        ) by {
            assert(out[i] == before[i]);
            if j < before.len() {
                assert(pairs_before(before[i].labels, before[j].labels));
            } else {
                assert(rest.contains(before[i]));
                let k = choose|k: int| 0 <= k < rest.len() && rest[k] == before[i];
                assert(pairs_before(series[k].labels, series[n].labels));
            }
        }
    }
}

/// Whether one of some series has the labels.
pub open spec fn some_series_has(series: Seq<RangeView>, g: Pairs) -> bool {
    exists|i: int| 0 <= i < series.len() && (#[trigger] series[i]).labels == g
}

/// Over a range, an aggregation gives one nameless series of each group that has
/// points: at each time at which the group has values, their reduction, by ascending
/// time. The groups come in the order of their labels.
pub proof fn law_each_group_is_reduced_over_time<
    C: Fn(BinOp, u64, u64) -> u64,
    W: Fn(i128) -> u64,
>(ar: Arithmetic<C, W>, series: Seq<RangeView>, op: AggOp, modifier: Option<&Grouping>)
    ensures
        ({
            let out = aggregated_series(ar, series, op, modifier);
            &&& forall|i: int|
                0 <= i < out.len() ==> {
                    let s = #[trigger] out[i];
                    &&& s.metric_name == Seq::<char>::empty()
                    &&& s.points.len() > 0
                    &&& ascending(s.points)
                }
            &&& forall|i: int, ts: i64, v: u64|
                0 <= i < out.len() ==> {
                    let values = values_at_time(series_group(series, modifier, out[i].labels), ts);
                    #[trigger] out[i].points.contains((ts, v)) <==> values.len() > 0 && v
                        == reduced(ar, op, values)
                }
            &&& forall|g: Pairs, ts: i64|
                (#[trigger] values_at_time(series_group(series, modifier, g), ts)).len() > 0
                    ==> some_series_has(out, g)
            &&& forall|i: int, j: int|
                0 <= i < j < out.len() ==> pairs_before(
                    (#[trigger] out[i]).labels,
                    (#[trigger] out[j]).labels,
                )
        }),
{
    let out = aggregated_series(ar, series, op, modifier);
    let input = series_by_group(series, modifier);
    let keys = keys_of::<Labels, RangeView>(input);
    let all = Seq::new(
        keys.len(),
        |i: int|
            RangeView {
                metric_name: Seq::empty(),
                labels: keys[i],
                points: reduced_by_time(ar, op, all_points(items_under(input, keys[i]))),
            },
    );
    lemma_keys_of_exists::<Labels, RangeView>(input);
    lemma_with_points_at(all);
    assert forall|i: int, j: int| 0 <= i < j < all.len() implies pairs_before(
        (#[trigger] all[i]).labels,
        (#[trigger] all[j]).labels,
    ) by {
        assert(<Labels as SortKey>::before(keys[i], keys[j]));
    }
    lemma_with_points_ordered(all);
    assert forall|i: int| 0 <= i < out.len() implies {
        let s = #[trigger] out[i];
        &&& s.metric_name == Seq::<char>::empty()
        &&& s.points.len() > 0
        &&& ascending(s.points)
    } by {
        let k = choose|k: int| 0 <= k < all.len() && all[k] == out[i];
        lemma_reduced_by_time(ar, op, items_under(input, keys[k]));
    }
    assert forall|i: int, ts: i64, v: u64| 0 <= i < out.len() implies {
        let values = values_at_time(series_group(series, modifier, out[i].labels), ts);
        #[trigger] out[i].points.contains((ts, v)) <==> values.len() > 0 && v == reduced(
            ar,
            op,
            values,
        )
    } by {
        assert(all.contains(out[i]));
        let k = choose|k: int| 0 <= k < all.len() && all[k] == out[i];
        lemma_series_group(series, modifier, keys[k]);
        lemma_reduced_by_time(ar, op, items_under(input, keys[k]));
    }
    assert forall|g: Pairs, ts: i64|
        (#[trigger] values_at_time(series_group(series, modifier, g), ts)).len()
            > 0 implies some_series_has(out, g) by {
        let members = series_group(series, modifier, g);
        lemma_series_group(series, modifier, g);
        if members.len() == 0 {
            assert(values_at_time(members, ts).len() == 0);
        }
        lemma_items_under_empty(input, g);
        let w = choose|w: int| 0 <= w < input.len() && (#[trigger] input[w]).0 == g;
        assert(keys.contains(input[w].0));
        let k = choose|k: int| 0 <= k < keys.len() && keys[k] == g;
        lemma_reduced_by_time(ar, op, members);
        let v = reduced(ar, op, values_at_time(members, ts));
        assert(all[k].points.contains((ts, v)));
        assert(all[k].points.len() > 0);
        let i = choose|i: int| 0 <= i < out.len() && out[i] == all[k];
        assert(out[i].labels == g);
    }
}

} // verus!
