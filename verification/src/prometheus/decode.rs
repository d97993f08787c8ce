//! From the columns that a query returns to points and series.

use vstd::prelude::*;
use crate::double::{is_finite, is_finite_bits};
use crate::labels::{label_map, pair_views, Labels, Pairs};
use crate::ordered::{items_under, keys_of, lemma_gathered, Groups};
use crate::prometheus::ast::{Selector, SelectorView};
use crate::prometheus::numbers::Arithmetic;
use crate::prometheus::plan::{BinOp, RangeFnOp};
use crate::prometheus::rows::{
    filter_rows, filter_views, kept_rows, label_filters_for_selector, meets_all, passes,
    point_views, range_views, row_matchers, InstantPoint, PointView, RangePoints, RangeView,
};
use crate::prometheus::series::{
    group_rows_by_series, latest_of, latest_per_series, range_fn_series, series_of, window_series,
};
use crate::text::texts;

verus! {

/// The entries of a label map that have both a key and a value.
pub open spec fn full_entries(entries: Seq<(Option<String>, Option<String>)>) -> Pairs
    decreases entries.len(),
{
    if entries.len() == 0 {
        Seq::empty()
    } else {
        let rest = full_entries(entries.drop_last());
        match entries.last() {
            (Some(k), Some(v)) => rest.push((k@, v@)),
            _ => rest,
        }
    }
}

/// The labels of one row's label map. An entry without a key or a value does not
/// count, and where a key occurs twice the later value does.
pub fn labels_to_btree(entries: Vec<(Option<String>, Option<String>)>) -> (r: Labels)
    ensures
        r@ == label_map(full_entries(entries@)),
{
    let ghost all = entries@;
    let mut pairs: Vec<(String, String)> = Vec::new();
    assert(pair_views(pairs@) =~= full_entries(all.take(0)));
    for e in it: entries
        invariant
            it.seq() == all,
            pair_views(pairs@) == full_entries(all.take(it.index() as int)),
            all.take(all.len() as int) =~= all,
    {
        let ghost before = pairs@;
        proof {
            let t = all.take(it.index() as int + 1);
            assert(t.drop_last() =~= all.take(it.index() as int));
            assert(t.last() == e);
        }
        if let (Some(k), Some(v)) = e {
            let ghost kv = (k@, v@);
            pairs.push((k, v));
            assert(pair_views(pairs@) =~= pair_views(before).push(kv));
        }
    }
    Labels::from_pairs(pairs)
}

// ---------- rows that name their series ----------

/// The latest sample of each series that the selector matches.
pub fn instant_selector(sel: &Selector, rows: Vec<InstantPoint>) -> (r: Vec<InstantPoint>)
    ensures
        point_views(r@) == latest_of(kept_rows(point_views(rows@), sel@)),
{
    latest_per_series(filter_rows(sel, rows))
}

/// The samples of each series that the selector matches.
pub fn range_selector(sel: &Selector, rows: Vec<InstantPoint>) -> (r: Vec<RangePoints>)
    ensures
        range_views(r@) == series_of(kept_rows(point_views(rows@), sel@)),
{
    group_rows_by_series(filter_rows(sel, rows))
}

/// A window function, at every step, of the series that the selector matches.
pub fn range_range_fn<C: Fn(BinOp, u64, u64) -> u64, W: Fn(i128) -> u64>(
    ar: &Arithmetic<C, W>,
    sel: &Selector,
    rows: Vec<InstantPoint>,
    range_us: i64,
    op: RangeFnOp,
    start_us: i64,
    end_us: i64,
    step_us: i64,
) -> (r: Vec<RangePoints>)
    requires
        ar.wf(),
        step_us > 0,
    ensures
        range_views(r@) == window_series(
            *ar,
            series_of(kept_rows(point_views(rows@), sel@)),
            op,
            range_us as int,
            start_us as int,
            end_us as int,
            step_us as int,
        ),
{
    range_fn_series(ar, range_selector(sel, rows), op, range_us, start_us, end_us, step_us)
}

/// One series' value as a window function's query returns it.
pub struct ValueRow {
    pub metric_name: String,
    pub labels: Labels,
    pub value: Option<u64>,
}

/// The points, at `time_us`, of the rows that the selector matches and that have
/// a finite value.
pub open spec fn finite_points(rows: Seq<ValueRow>, sel: SelectorView, time_us: i64) -> Seq<
    PointView,
>
    decreases rows.len(),
{
    if rows.len() == 0 {
        Seq::empty()
    } else {
        let rest = finite_points(rows.drop_last(), sel, time_us);
        let row = rows.last();
        match row.value {
            Some(v) => if meets_all(row.metric_name@, row.labels@, row_matchers(sel.matchers))
                && is_finite_bits(v) {
                rest.push(
                    PointView {
                        metric_name: row.metric_name@,
                        labels: row.labels@,
                        ts_us: time_us,
                        value: v,
                    },
                )
            } else {
                rest
            },
            None => rest,
        }
    }
}

/// The points, at `time_us`, of the rows that the selector matches. A value that
/// is missing or not finite is dropped rather than passed on.
pub fn range_fn_points(sel: &Selector, rows: Vec<ValueRow>, time_us: i64) -> (r: Vec<InstantPoint>)
    ensures
        point_views(r@) == finite_points(rows@, sel@, time_us),
{
    let ghost all = rows@;
    let filters = label_filters_for_selector(sel);
    let mut out: Vec<InstantPoint> = Vec::new();
    assert(point_views(out@) =~= finite_points(all.take(0), sel@, time_us));
    for row in it: rows
        invariant
            it.seq() == all,
            filter_views(filters@) == row_matchers(sel@.matchers),
            point_views(out@) == finite_points(all.take(it.index() as int), sel@, time_us),
            all.take(all.len() as int) =~= all,
    {
        let ghost before = out@;
        proof {
            let t = all.take(it.index() as int + 1);
            assert(t.drop_last() =~= all.take(it.index() as int));
            assert(t.last() == row);
        }
        if let Some(v) = row.value {
            if passes(row.metric_name.as_str(), &row.labels, &filters) && is_finite(v) {
                let p = InstantPoint {
                    metric_name: row.metric_name,
                    labels: row.labels,
                    ts_us: time_us,
                    value: v,
                };
                out.push(p);
                assert(point_views(out@) =~= point_views(before).push(p@));
            }
        }
    }
    out
}

// ---------- rows of an aggregation ----------

/// One group as an aggregating query returns it: when, the value of each
/// retained label, and the aggregate.
pub struct GroupRow {
    pub ts_us: i64,
    pub labels: Vec<Option<String>>,
    pub value: Option<u64>,
}

/// The labels that a group has, of those that are retained.
pub open spec fn present(keys: Seq<Seq<char>>, values: Seq<Option<String>>) -> Pairs
    decreases keys.len(),
{
    if keys.len() == 0 || values.len() < keys.len() {
        Seq::empty()
    } else {
        let rest = present(keys.drop_last(), values);
        match values[keys.len() - 1] {
            Some(v) => rest.push((keys.last(), v@)),
            None => rest,
        }
    }
}

/// The labels of a group. A series without a label falls into the group without
/// it.
pub open spec fn group_labels(keys: Seq<Seq<char>>, values: Seq<Option<String>>) -> Pairs {
    label_map(present(keys, values))
}

fn labels_of_group(keys: &Vec<String>, values: &Vec<Option<String>>) -> (r: Labels)
    requires
        values@.len() == keys@.len(),
    ensures
        r@ == group_labels(texts(keys@), values@),
{
    let ghost all = texts(keys@);
    let mut pairs: Vec<(String, String)> = Vec::new();
    let mut i: usize = 0;
    assert(pair_views(pairs@) =~= present(all.take(0), values@));
    while i < keys.len()
        invariant
            all == texts(keys@),
            values@.len() == keys@.len(),
            i <= keys@.len(),
            pair_views(pairs@) == present(all.take(i as int), values@),
        decreases keys@.len() - i,
    {
        let ghost before = pairs@;
        proof {
            let t = all.take(i as int + 1);
            assert(t.drop_last() =~= all.take(i as int));
            assert(t.last() == keys@[i as int]@);
        }
        if let Some(v) = &values[i] {
            pairs.push((keys[i].clone(), v.clone()));
            assert(pair_views(pairs@) =~= pair_views(before).push((keys@[i as int]@, v@)));
        }
        i += 1;
    }
    assert(all.take(i as int) =~= all);
    Labels::from_pairs(pairs)
}

/// Whether every row has a value or a gap for each retained label.
pub open spec fn rows_fit(rows: Seq<GroupRow>, keys: Seq<Seq<char>>) -> bool {
    forall|i: int| 0 <= i < rows.len() ==> (#[trigger] rows[i]).labels@.len() == keys.len()
}

/// The aggregates of the rows that have one, each filed under its group's
/// labels.
pub open spec fn group_values(rows: Seq<GroupRow>, keys: Seq<Seq<char>>) -> Seq<(Pairs, (i64, u64))>
    decreases rows.len(),
{
    if rows.len() == 0 {
        Seq::empty()
    } else {
        let rest = group_values(rows.drop_last(), keys);
        let row = rows.last();
        match row.value {
            Some(v) => rest.push((group_labels(keys, row.labels@), (row.ts_us, v))),
            None => rest,
        }
    }
}

/// One nameless point for each aggregate, in the order they came.
pub open spec fn aggregate_points(rows: Seq<GroupRow>, keys: Seq<Seq<char>>) -> Seq<PointView> {
    group_values(rows, keys).map_values(
        |e: (Pairs, (i64, u64))|
            PointView { metric_name: Seq::empty(), labels: e.0, ts_us: e.1.0, value: e.1.1 },
    )
}

/// The points of an aggregating query's rows.
pub fn aggregate_rows_to_points(rows: Vec<GroupRow>, keys: &Vec<String>) -> (r: Vec<InstantPoint>)
    requires
        rows_fit(rows@, texts(keys@)),
    ensures
        point_views(r@) == aggregate_points(rows@, texts(keys@)),
{
    let ghost k = texts(keys@);
    let mut out: Vec<InstantPoint> = Vec::new();
    let mut i: usize = 0;
    assert(point_views(out@) =~= aggregate_points(rows@.take(0), k));
    while i < rows.len()
        invariant
            k == texts(keys@),
            rows_fit(rows@, k),
            i <= rows@.len(),
            point_views(out@) == aggregate_points(rows@.take(i as int), k),
        decreases rows@.len() - i,
    {
        let ghost before = out@;
        let row = &rows[i];
        proof {
            let t = rows@.take(i as int + 1);
            assert(t.drop_last() =~= rows@.take(i as int));
            assert(t.last() == row);
        }
        if let Some(v) = row.value {
            let metric_name = String::new();
            let p = InstantPoint {
                metric_name,
                labels: labels_of_group(keys, &row.labels),
                ts_us: row.ts_us,
                value: v,
            };
            out.push(p);
            proof {
                assert(p@.metric_name =~= Seq::empty());
                assert(point_views(out@) =~= point_views(before).push(p@));
                assert(aggregate_points(rows@.take(i as int + 1), k) =~= aggregate_points(
                    rows@.take(i as int),
                    k,
                ).push(p@));
            }
        }
        i += 1;
    }
    assert(rows@.take(i as int) =~= rows@);
    out
}

/// One nameless series for each group, in the order of the groups' labels.
pub open spec fn aggregate_series(rows: Seq<GroupRow>, keys: Seq<Seq<char>>) -> Seq<RangeView> {
    let input = group_values(rows, keys);
    let groups = keys_of::<Labels, (i64, u64)>(input);
    Seq::new(
        groups.len(),
        |i: int|
            RangeView {
                metric_name: Seq::empty(),
                labels: groups[i],
                points: items_under(input, groups[i]),
            },
    )
}

fn copy_points(points: &Vec<(i64, u64)>) -> (r: Vec<(i64, u64)>)
    ensures
        r@ == points@,
{
    let mut r: Vec<(i64, u64)> = Vec::new();
    let mut i: usize = 0;
    while i < points.len()
        invariant
            i <= points@.len(),
            r@ == points@.take(i as int),
        decreases points@.len() - i,
    {
        r.push(points[i]);
        assert(r@ =~= points@.take(i as int + 1));
        i += 1;
    }
    assert(points@.take(i as int) =~= points@);
    r
}

/// The series of an aggregating query's rows.
pub fn aggregate_rows_to_series(rows: Vec<GroupRow>, keys: &Vec<String>) -> (r: Vec<RangePoints>)
    requires
        rows_fit(rows@, texts(keys@)),
    ensures
        range_views(r@) == aggregate_series(rows@, texts(keys@)),
{
    let ghost k = texts(keys@);
    let mut g: Groups<Labels, (i64, u64)> = Groups::new();
    let mut i: usize = 0;
    assert(g.input@ =~= group_values(rows@.take(0), k));
    while i < rows.len()
        invariant
            k == texts(keys@),
            rows_fit(rows@, k),
            i <= rows@.len(),
            g.wf(),
            g.input@ == group_values(rows@.take(i as int), k),
        decreases rows@.len() - i,
    {
        let row = &rows[i];
        proof {
            let t = rows@.take(i as int + 1);
            assert(t.drop_last() =~= rows@.take(i as int));
            assert(t.last() == row);
        }
        if let Some(v) = row.value {
            let labels = labels_of_group(keys, &row.labels);
            g.push(labels, (row.ts_us, v));
        }
        i += 1;
    }
    let ghost input = group_values(rows@, k);
    proof {
        assert(rows@.take(i as int) =~= rows@);
        lemma_gathered::<Labels, (i64, u64)>(g.input@, g.key_views(), g.item_views());
    }
    let ghost groups = g.key_views();
    let ghost want = aggregate_series(rows@, k);
    let mut out: Vec<RangePoints> = Vec::new();
    let mut i: usize = 0;
    assert(range_views(out@) =~= want.take(0));
    while i < g.keys.len()
        invariant
            i <= g.keys@.len(),
            groups == g.key_views(),
            g.items@.len() == g.keys@.len(),
            forall|j: int|
                0 <= j < groups.len() ==> #[trigger] g.item_views()[j] == items_under(
                    input,
                    groups[j],
                ),
            want.len() == groups.len(),
            forall|j: int|
                0 <= j < groups.len() ==> #[trigger] want[j] == (RangeView {
                    metric_name: Seq::empty(),
                    labels: groups[j],
                    points: items_under(input, groups[j]),
                }),
            range_views(out@) == want.take(i as int),
        decreases g.keys@.len() - i,
    {
        let ghost before = out@;
        let points = copy_points(&g.items[i]);
        let metric_name = String::new();
        let n = RangePoints { metric_name, labels: g.keys[i].clone(), points };
        out.push(n);
        proof {
            assert(g.item_views()[i as int] == g.items@[i as int]@);
            assert(groups[i as int] == g.keys@[i as int]@);
            assert(n@.metric_name =~= Seq::empty());
            assert(want[i as int] == n@);
            assert(range_views(out@) =~= range_views(before).push(n@));
            assert(want.take(i as int + 1) =~= want.take(i as int).push(want[i as int]));
        }
        i += 1;
    }
    assert(want.take(i as int) =~= want);
    out
}

} // verus!
