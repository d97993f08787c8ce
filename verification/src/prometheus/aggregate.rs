//! Aggregating points by group.

use vstd::prelude::*;
use crate::labels::{named, Labels, Pairs};
use crate::ordered::{
    items_under, keys_of, lemma_gathered, lemma_gathered_mapped, with_items, Groups,
};
use crate::prometheus::ast::{Grouping, ModifierView};
use crate::prometheus::numbers::{apply_agg, reduced, Arithmetic};
use crate::prometheus::plan::{AggOp, BinOp};
use crate::prometheus::rows::{
    point_views, range_views, InstantPoint, PointView, RangePoints, RangeView,
};
use crate::prometheus::series::with_points;

verus! {

// ---------- groups ----------

/// The labels that a group is known by: those named by `by (...)`, all but those
/// named by `without (...)`, and none where there is no modifier.
pub open spec fn retained(labels: Pairs, modifier: Option<&Grouping>) -> Pairs {
    match modifier {
        Some(g) => match g@ {
            ModifierView::Include(names) => named(labels, names, true),
            ModifierView::Exclude(names) => named(labels, names, false),
        },
        None => Seq::empty(),
    }
}

/// The labels that a group is known by.
pub fn retained_labels(labels: &Labels, modifier: Option<&Grouping>) -> (r: Labels)
    ensures
        r@ == retained(labels@, modifier),
{
    match modifier {
        Some(Grouping::Include(names)) => labels.filtered(names, true),
        Some(Grouping::Exclude(names)) => labels.filtered(names, false),
        None => Labels::new(),
    }
}

/// The points, each filed under its group's labels.
pub open spec fn points_by_group(points: Seq<PointView>, modifier: Option<&Grouping>) -> Seq<
    (Pairs, PointView),
> {
    points.map_values(|p: PointView| (retained(p.labels, modifier), p))
}

/// The series, each filed under its group's labels.
pub open spec fn series_by_group(series: Seq<RangeView>, modifier: Option<&Grouping>) -> Seq<
    (Pairs, RangeView),
> {
    series.map_values(|p: RangeView| (retained(p.labels, modifier), p))
}

pub(crate) fn gather_points(points: Vec<InstantPoint>, modifier: Option<&Grouping>) -> (g: Groups<
    Labels,
    InstantPoint,
>)
    ensures
        g.keys@.len() == g.items@.len(),
        g.key_views() == keys_of::<Labels, PointView>(points_by_group(point_views(points@), modifier)),
        forall|i: int|
            0 <= i < g.items@.len() ==> point_views((#[trigger] g.items@[i])@) == items_under(
                points_by_group(point_views(points@), modifier),
                g.key_views()[i],
            ),
{
    let ghost all = points_by_group(point_views(points@), modifier);
    let ghost f = |p: InstantPoint| p@;
    let mut g: Groups<Labels, InstantPoint> = Groups::new();
    assert(with_items(g.input@, f) =~= all.take(0));
    for p in it: points
        invariant
            it.seq() == points@,
            all == points_by_group(point_views(points@), modifier),
            f == (|p: InstantPoint| p@),
            g.wf(),
            with_items(g.input@, f) == all.take(it.index() as int),
            all.take(all.len() as int) =~= all,
    {
        let ghost before = g.input@;
        let key = retained_labels(&p.labels, modifier);
        let ghost k = key@;
        g.push(key, p);
        proof {
            assert(all[it.index() as int] == (k, p@));
            assert(with_items(g.input@, f) =~= with_items(before, f).push((k, p@)));
            assert(all.take(it.index() as int + 1) =~= all.take(it.index() as int).push(
                all[it.index() as int],
            ));
        }
    }
    proof {
        lemma_gathered_mapped::<Labels, InstantPoint, PointView>(
            g.input@,
            g.key_views(),
            g.item_views(),
            f,
        );
        assert forall|i: int| 0 <= i < g.items@.len() implies point_views(
            (#[trigger] g.items@[i])@,
        ) == items_under(all, g.key_views()[i]) by {
            assert(g.item_views()[i] == g.items@[i]@);
            assert(point_views(g.items@[i]@) =~= g.item_views()[i].map_values(f));
        }
    }
    g
}

pub(crate) fn gather_series(series: Vec<RangePoints>, modifier: Option<&Grouping>) -> (g: Groups<
    Labels,
    RangePoints,
>)
    ensures
        g.keys@.len() == g.items@.len(),
        g.key_views() == keys_of::<Labels, RangeView>(series_by_group(range_views(series@), modifier)),
        forall|i: int|
            0 <= i < g.items@.len() ==> range_views((#[trigger] g.items@[i])@) == items_under(
                series_by_group(range_views(series@), modifier),
                g.key_views()[i],
            ),
{
    let ghost all = series_by_group(range_views(series@), modifier);
    let ghost f = |p: RangePoints| p@;
    let mut g: Groups<Labels, RangePoints> = Groups::new();
    assert(with_items(g.input@, f) =~= all.take(0));
    for p in it: series
        invariant
            it.seq() == series@,
            all == series_by_group(range_views(series@), modifier),
            f == (|p: RangePoints| p@),
            g.wf(),
            with_items(g.input@, f) == all.take(it.index() as int),
            all.take(all.len() as int) =~= all,
    {
        let ghost before = g.input@;
        let key = retained_labels(&p.labels, modifier);
        let ghost k = key@;
        g.push(key, p);
        proof {
            assert(all[it.index() as int] == (k, p@));
            assert(with_items(g.input@, f) =~= with_items(before, f).push((k, p@)));
            assert(all.take(it.index() as int + 1) =~= all.take(it.index() as int).push(
                all[it.index() as int],
            ));
        }
    }
    proof {
        lemma_gathered_mapped::<Labels, RangePoints, RangeView>(
            g.input@,
            g.key_views(),
            g.item_views(),
            f,
        );
        assert forall|i: int| 0 <= i < g.items@.len() implies range_views(
            (#[trigger] g.items@[i])@,
        ) == items_under(all, g.key_views()[i]) by {
            assert(g.item_views()[i] == g.items@[i]@);
            assert(range_views(g.items@[i]@) =~= g.item_views()[i].map_values(f));
        }
    }
    g
}

// ---------- reductions ----------

/// The values of a list of points.
pub open spec fn values_of(points: Seq<PointView>) -> Seq<u64> {
    points.map_values(|p: PointView| p.value)
}

/// Each group's points reduced to one, in the order of the groups' labels. The
/// metric name goes.
pub open spec fn aggregated<C: Fn(BinOp, u64, u64) -> u64, W: Fn(i128) -> u64>(
    ar: Arithmetic<C, W>,
    points: Seq<PointView>,
    op: AggOp,
    modifier: Option<&Grouping>,
    time_us: i64,
) -> Seq<PointView> {
    let input = points_by_group(points, modifier);
    let keys = keys_of::<Labels, PointView>(input);
    Seq::new(
        keys.len(),
        |i: int|
            PointView {
                metric_name: Seq::empty(),
                labels: keys[i],
                ts_us: time_us,
                value: reduced(ar, op, values_of(items_under(input, keys[i]))),
            },
    )
}

fn take_values(points: &Vec<InstantPoint>) -> (r: Vec<u64>)
    ensures
        r@ == values_of(point_views(points@)),
{
    let mut r: Vec<u64> = Vec::new();
    let mut i: usize = 0;
    while i < points.len()
        invariant
            i <= points@.len(),
            r@.len() == i,
            forall|j: int| 0 <= j < i ==> #[trigger] r@[j] == points@[j].value,
        decreases points@.len() - i,
    {
        r.push(points[i].value);
        i += 1;
    }
    assert(r@ =~= values_of(point_views(points@)));
    r
}

/// Group points by retained labels, then reduce each group to one point.
/// Aggregations strip the metric name.
pub fn aggregate_instant_points<C: Fn(BinOp, u64, u64) -> u64, W: Fn(i128) -> u64>(
    ar: &Arithmetic<C, W>,
    inner: Vec<InstantPoint>,
    op: AggOp,
    modifier: Option<&Grouping>,
    time_us: i64,
) -> (r: Vec<InstantPoint>)
    requires
        ar.wf(),
    ensures
        point_views(r@) == aggregated(*ar, point_views(inner@), op, modifier, time_us),
{
    let ghost input = points_by_group(point_views(inner@), modifier);
    let ghost want = aggregated(*ar, point_views(inner@), op, modifier, time_us);
    let g = gather_points(inner, modifier);
    let ghost keys = g.key_views();
    let mut out: Vec<InstantPoint> = Vec::new();
    let mut i: usize = 0;
    assert(point_views(out@) =~= want.take(0));
    while i < g.items.len()
        invariant
            ar.wf(),
            i <= g.items@.len(),
            g.keys@.len() == g.items@.len(),
            keys == g.key_views(),
            want.len() == keys.len(),
            forall|j: int|
                0 <= j < keys.len() ==> #[trigger] want[j] == (PointView {
                    metric_name: Seq::empty(),
                    labels: keys[j],
                    ts_us: time_us,
                    value: reduced(*ar, op, values_of(items_under(input, keys[j]))),
                }),
            forall|j: int|
                0 <= j < g.items@.len() ==> point_views((#[trigger] g.items@[j])@) == items_under(
                    input,
                    keys[j],
                ),
            point_views(out@) == want.take(i as int),
        decreases g.items@.len() - i,
    {
        let ghost before = out@;
        let values = take_values(&g.items[i]);
        let metric_name = String::new();
        let p = InstantPoint {
            metric_name,
            labels: g.keys[i].clone(),
            ts_us: time_us,
            value: apply_agg(ar, op, &values),
        };
        out.push(p);
        proof {
            assert(keys[i as int] == g.keys@[i as int]@);
            assert(p@.metric_name =~= Seq::empty());
            assert(want[i as int] == p@);
            assert(point_views(out@) =~= point_views(before).push(p@));
            assert(want.take(i as int + 1) =~= want.take(i as int).push(want[i as int]));
        }
        i += 1;
    }
    assert(want.take(i as int) =~= want);
    out
}

/// Every point of a list of series, series by series.
pub open spec fn all_points(series: Seq<RangeView>) -> Seq<(i64, u64)>
    decreases series.len(),
{
    if series.len() == 0 {
        Seq::empty()
    } else {
        all_points(series.drop_last()) + series.last().points
    }
}

/// The values of each time reduced to one, in time order.
pub open spec fn reduced_by_time<C: Fn(BinOp, u64, u64) -> u64, W: Fn(i128) -> u64>(
    ar: Arithmetic<C, W>,
    op: AggOp,
    points: Seq<(i64, u64)>,
) -> Seq<(i64, u64)> {
    let times = keys_of::<i64, u64>(points);
    Seq::new(times.len(), |i: int| (times[i], reduced(ar, op, items_under(points, times[i]))))
}

/// Each group's series reduced to one, time by time, in the order of the groups'
/// labels. The metric name goes, and a group without points.
pub open spec fn aggregated_series<C: Fn(BinOp, u64, u64) -> u64, W: Fn(i128) -> u64>(
    ar: Arithmetic<C, W>,
    series: Seq<RangeView>,
    op: AggOp,
    modifier: Option<&Grouping>,
) -> Seq<RangeView> {
    let input = series_by_group(series, modifier);
    let keys = keys_of::<Labels, RangeView>(input);
    with_points(
        Seq::new(
            keys.len(),
            |i: int|
                RangeView {
                    metric_name: Seq::empty(),
                    labels: keys[i],
                    points: reduced_by_time(ar, op, all_points(items_under(input, keys[i]))),
                },
        ),
    )
}

pub(crate) fn points_by_time(series: &Vec<RangePoints>) -> (g: Groups<i64, u64>)
    ensures
        g.wf(),
        g.input@ == all_points(range_views(series@)),
{
    let ghost all = range_views(series@);
    let mut g: Groups<i64, u64> = Groups::new();
    let mut i: usize = 0;
    assert(g.input@ =~= all_points(all.take(0)));
    while i < series.len()
        invariant
            all == range_views(series@),
            i <= series@.len(),
            g.wf(),
            g.input@ == all_points(all.take(i as int)),
        decreases series@.len() - i,
    {
        let points = &series[i].points;
        let ghost before = g.input@;
        let mut j: usize = 0;
        assert(g.input@ =~= before + points@.take(0));
        while j < points.len()
            invariant
                j <= points@.len(),
                g.wf(),
                g.input@ == before + points@.take(j as int),
            decreases points@.len() - j,
        {
            let (ts, v) = points[j];
            g.push(ts, v);
            assert(g.input@ =~= before + points@.take(j as int + 1));
            j += 1;
        }
        proof {
            assert(points@.take(j as int) =~= points@);
            assert(all.take(i as int + 1).drop_last() =~= all.take(i as int));
            assert(all.take(i as int + 1).last() == series@[i as int]@);
        }
        i += 1;
    }
    assert(all.take(i as int) =~= all);
    g
}

fn reduce_by_time<C: Fn(BinOp, u64, u64) -> u64, W: Fn(i128) -> u64>(
    ar: &Arithmetic<C, W>,
    op: AggOp,
    series: &Vec<RangePoints>,
) -> (r: Vec<(i64, u64)>)
    requires
        ar.wf(),
    ensures
        r@ == reduced_by_time(*ar, op, all_points(range_views(series@))),
{
    let ghost points = all_points(range_views(series@));
    let g = points_by_time(series);
    proof {
        lemma_gathered::<i64, u64>(g.input@, g.key_views(), g.item_views());
    }
    let ghost times = keys_of::<i64, u64>(points);
    let mut r: Vec<(i64, u64)> = Vec::new();
    let mut i: usize = 0;
    while i < g.keys.len()
        invariant
            ar.wf(),
            i <= g.keys@.len(),
            g.keys@.len() == g.items@.len(),
            times == g.key_views(),
            forall|j: int|
                0 <= j < g.items@.len() ==> #[trigger] g.item_views()[j] == items_under(
                    points,
                    times[j],
                ),
            r@.len() == i,
            forall|j: int|
                0 <= j < i ==> #[trigger] r@[j] == (
                    times[j],
                    reduced(*ar, op, items_under(points, times[j])),
                ),
        decreases g.keys@.len() - i,
    {
        assert(g.item_views()[i as int] == g.items@[i as int]@);
        assert(times[i as int] == g.keys@[i as int]);
        let v: u64 = apply_agg(ar, op, &g.items[i]);
        r.push((g.keys[i], v));
        i += 1;
    }
    assert(r@ =~= reduced_by_time(*ar, op, points));
    r
}

/// Group series by retained labels, then reduce the values of each time to one.
/// Aggregations strip the metric name.
pub fn aggregate_range_points<C: Fn(BinOp, u64, u64) -> u64, W: Fn(i128) -> u64>(
    ar: &Arithmetic<C, W>,
    inner: Vec<RangePoints>,
    op: AggOp,
    modifier: Option<&Grouping>,
) -> (r: Vec<RangePoints>)
    requires
        ar.wf(),
    ensures
        range_views(r@) == aggregated_series(*ar, range_views(inner@), op, modifier),
{
    let ghost input = series_by_group(range_views(inner@), modifier);
    let g = gather_series(inner, modifier);
    let ghost keys = g.key_views();
    let ghost all = Seq::new(
        keys.len(),
        |i: int|
            RangeView {
                metric_name: Seq::empty(),
                labels: keys[i],
                points: reduced_by_time(*ar, op, all_points(items_under(input, keys[i]))),
            },
    );
    let mut out: Vec<RangePoints> = Vec::new();
    let mut i: usize = 0;
    assert(range_views(out@) =~= with_points(all.take(0)));
    while i < g.items.len()
        invariant
            ar.wf(),
            i <= g.items@.len(),
            g.keys@.len() == g.items@.len(),
            keys == g.key_views(),
            all.len() == keys.len(),
            forall|j: int|
                0 <= j < keys.len() ==> #[trigger] all[j] == (RangeView {
                    metric_name: Seq::empty(),
                    labels: keys[j],
                    points: reduced_by_time(*ar, op, all_points(items_under(input, keys[j]))),
                }),
            forall|j: int|
                0 <= j < g.items@.len() ==> range_views((#[trigger] g.items@[j])@) == items_under(
                    input,
                    keys[j],
                ),
            range_views(out@) == with_points(all.take(i as int)),
        decreases g.items@.len() - i,
    {
        let ghost before = out@;
        let points = reduce_by_time(ar, op, &g.items[i]);
        proof {
            assert(keys[i as int] == g.keys@[i as int]@);
            let t = all.take(i as int + 1);
            assert(t.drop_last() =~= all.take(i as int));
            assert(t.last() == all[i as int]);
        }
        if points.len() > 0 {
            let metric_name = String::new();
            let p = RangePoints { metric_name, labels: g.keys[i].clone(), points };
            out.push(p);
            assert(p@.metric_name =~= Seq::empty());
            assert(range_views(out@) =~= range_views(before).push(p@));
        }
        i += 1;
    }
    assert(all.take(i as int) =~= all);
    out
}

} // verus!
