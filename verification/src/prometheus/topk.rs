//! `topk` and `bottomk`: the n greatest or least of each group. Unlike the
//! reductions these are filters: what survives keeps its name and labels.

use vstd::prelude::*;
use crate::double::{is_nan, is_nan_bits, place, SIGN};
use crate::labels::Labels;
use crate::ordered::{
    flat, items_under, keyed, keys_of, lemma_gathered, lemma_stable_order_exists,
    lemma_stable_order_mapped, sort_by_key, stable_order, with_items,
};
use crate::prometheus::aggregate::{
    all_points, gather_points, gather_series, points_by_group, points_by_time, series_by_group,
};
use crate::prometheus::ast::Grouping;
use crate::prometheus::rows::{
    point_views, range_views, InstantPoint, PointView, RangePoints, RangeView,
};
use crate::prometheus::series::{group_rows_by_series, series_of};

verus! {

/// Where a value ranks: the greatest first for `top`, else the least first, and
/// NaN last either way.
pub open spec fn rank(value: u64, top: bool) -> i64 {
    if is_nan_bits(value) {
        i64::MAX
    } else if top {
        (-place(value)) as i64
    } else {
        place(value) as i64
    }
}

pub(crate) fn rank_of(value: u64, top: bool) -> (r: i64)
    ensures
        r == rank(value, top),
{
    if is_nan(value) {
        i64::MAX
    } else if value >= SIGN {
        let m: i64 = (value - SIGN) as i64;
        if top {
            m
        } else {
            -m
        }
    } else {
        let m: i64 = value as i64;
        if top {
            -m
        } else {
            m
        }
    }
}

/// The points with their ranks.
pub open spec fn with_ranks(points: Seq<PointView>, top: bool) -> Seq<(i64, PointView)> {
    points.map_values(|p: PointView| (rank(p.value, top), p))
}

/// The points in the order of their ranks, points of one rank in the order they
/// came.
pub open spec fn ranked(points: Seq<PointView>, top: bool) -> Seq<PointView> {
    stable_order::<i64, PointView>(with_ranks(points, top)).map_values(|e: (i64, PointView)| e.1)
}

/// The first `n` of the ranked points.
pub open spec fn chosen(points: Seq<PointView>, n: usize, top: bool) -> Seq<PointView> {
    if n < points.len() {
        ranked(points, top).take(n as int)
    } else {
        ranked(points, top)
    }
}

/// The first `n` of each group's ranked points, groups in the order of their
/// labels.
pub open spec fn top_points(
    points: Seq<PointView>,
    n: usize,
    top: bool,
    modifier: Option<&Grouping>,
) -> Seq<PointView> {
    let input = points_by_group(points, modifier);
    let keys = keys_of::<Labels, PointView>(input);
    if n == 0 {
        Seq::empty()
    } else {
        flat(Seq::new(keys.len(), |i: int| chosen(items_under(input, keys[i]), n, top)))
    }
}

fn choose_points(points: Vec<InstantPoint>, n: usize, top: bool) -> (r: Vec<InstantPoint>)
    ensures
        point_views(r@) == chosen(point_views(points@), n, top),
{
    let ghost all = point_views(points@);
    let ghost f = |p: InstantPoint| p@;
    let ghost points0 = points@;
    let mut pairs: Vec<(i64, InstantPoint)> = Vec::new();
    for p in it: points
        invariant
            it.seq() == points0,
            pairs@.len() == it.index(),
            forall|j: int|
                0 <= j < it.index() ==> #[trigger] pairs@[j] == (
                    rank(points0[j].value, top),
                    points0[j],
                ),
    {
        let k: i64 = rank_of(p.value, top);
        pairs.push((k, p));
    }
    let ghost input = keyed(pairs@);
    let mut sorted = sort_by_key::<i64, InstantPoint>(pairs);
    let ghost out = keyed(sorted@);
    proof {
        lemma_stable_order_mapped::<i64, InstantPoint, PointView>(input, out, f);
        assert(with_items(input, f) =~= with_ranks(all, top));
    }
    let ghost want = ranked(all, top);
    assert(want =~= sorted@.map_values(|e: (i64, InstantPoint)| e.1@));
    assert(want.len() == points0.len());
    if n < sorted.len() {
        sorted.truncate(n);
    }
    let ghost rest = sorted@;
    let mut r: Vec<InstantPoint> = Vec::new();
    for e in it: sorted
        invariant
            it.seq() == rest,
            r@.len() == it.index(),
            forall|j: int| 0 <= j < it.index() ==> #[trigger] r@[j] == rest[j].1,
    {
        r.push(e.1);
    }
    assert(point_views(r@) =~= chosen(all, n, top));
    r
}

/// Of each group of points, the `n` greatest, or the `n` least where `top` is
/// false.
pub fn topk_instant_points(
    inner: Vec<InstantPoint>,
    n: usize,
    top: bool,
    modifier: Option<&Grouping>,
) -> (r: Vec<InstantPoint>)
    ensures
        point_views(r@) == top_points(point_views(inner@), n, top, modifier),
{
    let mut out: Vec<InstantPoint> = Vec::new();
    assert(point_views(out@) =~= Seq::empty());
    if n == 0 {
        return out;
    }
    let ghost input = points_by_group(point_views(inner@), modifier);
    let g = gather_points(inner, modifier);
    let ghost keys = g.key_views();
    let ghost groups = g.items@;
    let ghost all = Seq::new(keys.len(), |i: int| chosen(items_under(input, keys[i]), n, top));
    assert(all.take(0) =~= Seq::empty());
    for m in it: g.items
        invariant
            it.seq() == groups,
            groups.len() == keys.len(),
            all.len() == keys.len(),
            forall|j: int|
                0 <= j < keys.len() ==> #[trigger] all[j] == chosen(
                    items_under(input, keys[j]),
                    n,
                    top,
                ),
            forall|j: int|
                0 <= j < groups.len() ==> point_views((#[trigger] groups[j])@) == items_under(
                    input,
                    keys[j],
                ),
            point_views(out@) == flat(all.take(it.index() as int)),
            all.take(all.len() as int) =~= all,
    {
        let ghost before = out@;
        let mut best = choose_points(m, n, top);
        let ghost b = best@;
        out.append(&mut best);
        proof {
            assert(groups[it.index() as int] == m);
            assert(all[it.index() as int] == point_views(b));
            let t = all.take(it.index() as int + 1);
            assert(t.drop_last() =~= all.take(it.index() as int));
            assert(t.last() == all[it.index() as int]);
            assert(point_views(out@) =~= point_views(before) + point_views(b));
        }
    }
    out
}

// ---------- over series ----------

/// The value at a time, the last one where a time occurs twice.
pub open spec fn value_at(points: Seq<(i64, u64)>, ts: i64) -> Option<u64>
    decreases points.len(),
{
    if points.len() == 0 {
        None
    } else if points.last().0 == ts {
        Some(points.last().1)
    } else {
        value_at(points.drop_last(), ts)
    }
}

/// The value at a time, the last one where a time occurs twice.
pub fn find_value(points: &Vec<(i64, u64)>, ts: i64) -> (r: Option<u64>)
    ensures
        r == value_at(points@, ts),
{
    let mut i: usize = points.len();
    assert(points@.take(i as int) =~= points@);
    while i > 0
        invariant
            i <= points@.len(),
            value_at(points@, ts) == value_at(points@.take(i as int), ts),
        decreases i,
    {
        assert(points@.take(i as int).drop_last() =~= points@.take(i as int - 1));
        if points[i - 1].0 == ts {
            return Some(points[i - 1].1);
        }
        i -= 1;
    }
    None
}

/// The points that the series have at a time, in the order of the series.
pub open spec fn points_at(series: Seq<RangeView>, ts: i64) -> Seq<PointView>
    decreases series.len(),
{
    if series.len() == 0 {
        Seq::empty()
    } else {
        let s = series.last();
        let rest = points_at(series.drop_last(), ts);
        match value_at(s.points, ts) {
            Some(v) => rest.push(
                PointView { metric_name: s.metric_name, labels: s.labels, ts_us: ts, value: v },
            ),
            None => rest,
        }
    }
}

/// The first `n` of the ranked points of every time, in time order.
pub open spec fn chosen_over_time(series: Seq<RangeView>, n: usize, top: bool) -> Seq<PointView> {
    let times = keys_of::<i64, u64>(all_points(series));
    flat(Seq::new(times.len(), |i: int| chosen(points_at(series, times[i]), n, top)))
}

/// At every time, the first `n` of each group's ranked series; what survives is
/// gathered into series again.
pub open spec fn top_series(
    series: Seq<RangeView>,
    n: usize,
    top: bool,
    modifier: Option<&Grouping>,
) -> Seq<RangeView> {
    let input = series_by_group(series, modifier);
    let keys = keys_of::<Labels, RangeView>(input);
    if n == 0 {
        Seq::empty()
    } else {
        series_of(
            flat(Seq::new(keys.len(), |i: int| chosen_over_time(items_under(input, keys[i]), n, top))),
        )
    }
}

fn collect_at(series: &Vec<RangePoints>, ts: i64) -> (r: Vec<InstantPoint>)
    ensures
        point_views(r@) == points_at(range_views(series@), ts),
{
    let ghost all = range_views(series@);
    let mut r: Vec<InstantPoint> = Vec::new();
    let mut i: usize = 0;
    assert(point_views(r@) =~= points_at(all.take(0), ts));
    while i < series.len()
        invariant
            all == range_views(series@),
            i <= series@.len(),
            point_views(r@) == points_at(all.take(i as int), ts),
        decreases series@.len() - i,
    {
        let ghost before = r@;
        proof {
            assert(all.take(i as int + 1).drop_last() =~= all.take(i as int));
            assert(all.take(i as int + 1).last() == series@[i as int]@);
        }
        if let Some(v) = find_value(&series[i].points, ts) {
            let p = InstantPoint {
                metric_name: series[i].metric_name.clone(),
                labels: series[i].labels.clone(),
                ts_us: ts,
                value: v,
            };
            r.push(p);
            assert(point_views(r@) =~= point_views(before).push(p@));
        }
        i += 1;
    }
    assert(all.take(i as int) =~= all);
    r
}

fn choose_over_time(series: &Vec<RangePoints>, n: usize, top: bool) -> (r: Vec<InstantPoint>)
    ensures
        point_views(r@) == chosen_over_time(range_views(series@), n, top),
{
    let ghost points = all_points(range_views(series@));
    let g = points_by_time(series);
    proof {
        lemma_gathered::<i64, u64>(g.input@, g.key_views(), g.item_views());
    }
    let ghost times = keys_of::<i64, u64>(points);
    let ghost all = Seq::new(
        times.len(),
        |i: int| chosen(points_at(range_views(series@), times[i]), n, top),
    );
    let mut out: Vec<InstantPoint> = Vec::new();
    let mut i: usize = 0;
    assert(point_views(out@) =~= flat(all.take(0)));
    while i < g.keys.len()
        invariant
            i <= g.keys@.len(),
            times == g.key_views(),
            all.len() == times.len(),
            forall|j: int|
                0 <= j < times.len() ==> #[trigger] all[j] == chosen(
                    points_at(range_views(series@), times[j]),
                    n,
                    top,
                ),
            point_views(out@) == flat(all.take(i as int)),
        decreases g.keys@.len() - i,
    {
        let ghost before = out@;
        assert(times[i as int] == g.keys@[i as int]);
        let mut best = choose_points(collect_at(series, g.keys[i]), n, top);
        let ghost b = best@;
        out.append(&mut best);
        proof {
            assert(all[i as int] == point_views(b));
            let t = all.take(i as int + 1);
            assert(t.drop_last() =~= all.take(i as int));
            assert(t.last() == all[i as int]);
            assert(point_views(out@) =~= point_views(before) + point_views(b));
        }
        i += 1;
    }
    assert(all.take(i as int) =~= all);
    out
}

/// At every time seen in a group of series, keep the `n` greatest, or the `n`
/// least where `top` is false, and gather what survives into series again.
pub fn topk_range_points(
    inner: Vec<RangePoints>,
    n: usize,
    top: bool,
    modifier: Option<&Grouping>,
) -> (r: Vec<RangePoints>)
    ensures
        range_views(r@) == top_series(range_views(inner@), n, top, modifier),
{
    if n == 0 {
        let out: Vec<RangePoints> = Vec::new();
        assert(range_views(out@) =~= Seq::empty());
        return out;
    }
    let ghost input = series_by_group(range_views(inner@), modifier);
    let g = gather_series(inner, modifier);
    let ghost keys = g.key_views();
    let ghost all = Seq::new(
        keys.len(),
        |i: int| chosen_over_time(items_under(input, keys[i]), n, top),
    );
    let mut out: Vec<InstantPoint> = Vec::new();
    let mut i: usize = 0;
    assert(point_views(out@) =~= flat(all.take(0)));
    while i < g.items.len()
        invariant
            i <= g.items@.len(),
            g.items@.len() == keys.len(),
            all.len() == keys.len(),
            forall|j: int|
                0 <= j < keys.len() ==> #[trigger] all[j] == chosen_over_time(
                    items_under(input, keys[j]),
                    n,
                    top,
                ),
            forall|j: int|
                0 <= j < g.items@.len() ==> range_views((#[trigger] g.items@[j])@) == items_under(
                    input,
                    keys[j],
                ),
            point_views(out@) == flat(all.take(i as int)),
        decreases g.items@.len() - i,
    {
        let ghost before = out@;
        let mut best = choose_over_time(&g.items[i], n, top);
        let ghost b = best@;
        out.append(&mut best);
        proof {
            assert(all[i as int] == point_views(b));
            let t = all.take(i as int + 1);
            assert(t.drop_last() =~= all.take(i as int));
            assert(t.last() == all[i as int]);
            assert(point_views(out@) =~= point_views(before) + point_views(b));
        }
        i += 1;
    }
    assert(all.take(i as int) =~= all);
    group_rows_by_series(out)
}

// ---------- laws ----------

/// Of a group of more than `n` points `n` are kept, of a smaller one all; each
/// of them is one of the group.
pub proof fn law_topk_keeps_n(points: Seq<PointView>, n: usize, top: bool)
    ensures
        chosen(points, n, top).len() == if n < points.len() {
            n as nat
        } else {
            points.len()
        },
        forall|i: int|
            0 <= i < chosen(points, n, top).len() ==> points.contains(
                #[trigger] chosen(points, n, top)[i],
            ),
{
    let input = with_ranks(points, top);
    lemma_stable_order_exists::<i64, PointView>(input);
    let out = stable_order::<i64, PointView>(input);
    let c = chosen(points, n, top);
    assert forall|i: int| 0 <= i < c.len() implies points.contains(#[trigger] c[i]) by {
        assert(c[i] == out[i].1);
        lemma_held(out, i);
        let k = out[i].0;
        assert(items_under(out, k) == items_under(input, k));
        let j = choose|j: int|
            0 <= j < items_under(out, k).len() && items_under(out, k)[j] == out[i].1;
        lemma_from_input(input, k, j);
        let w = choose|w: int|
            0 <= w < input.len() && (#[trigger] input[w]).1 == items_under(input, k)[j];
        assert(points[w] == c[i]);
    }
}

/// What `topk` keeps of a group ranks no worse than what it drops.
pub proof fn law_topk_keeps_the_best(points: Seq<PointView>, n: usize, top: bool, kept: int, rest: int)
    requires
        0 <= kept < chosen(points, n, top).len(),
        chosen(points, n, top).len() <= rest < ranked(points, top).len(),
    ensures
        rank(chosen(points, n, top)[kept].value, top) <= rank(ranked(points, top)[rest].value, top),
{
    let input = with_ranks(points, top);
    lemma_stable_order_exists::<i64, PointView>(input);
    let out = stable_order::<i64, PointView>(input);
    lemma_ranks(points, top, kept);
    lemma_ranks(points, top, rest);
    assert(!(out[rest].0 < out[kept].0));
}

proof fn lemma_ranks(points: Seq<PointView>, top: bool, i: int)
    requires
        0 <= i < ranked(points, top).len(),
    ensures
        stable_order::<i64, PointView>(with_ranks(points, top))[i].0 == rank(
            ranked(points, top)[i].value,
            top,
        ),
{
    let input = with_ranks(points, top);
    lemma_stable_order_exists::<i64, PointView>(input);
    let out = stable_order::<i64, PointView>(input);
    lemma_held(out, i);
    let k = out[i].0;
    assert(items_under(out, k) == items_under(input, k));
    let j = choose|j: int| 0 <= j < items_under(out, k).len() && items_under(out, k)[j] == out[i].1;
    lemma_from_input(input, k, j);
    let w = choose|w: int|
        0 <= w < input.len() && (#[trigger] input[w]).1 == items_under(input, k)[j] && input[w].0
            == k;
    assert(input[w] == (rank(points[w].value, top), points[w]));
}

/// An item of a list stands under its key.
proof fn lemma_held<T>(s: Seq<(i64, T)>, i: int)
    requires
        0 <= i < s.len(),
    ensures
        exists|j: int|
            0 <= j < items_under(s, s[i].0).len() && items_under(s, s[i].0)[j] == s[i].1,
    decreases s.len(),
{
    let k = s[i].0;
    let rest = s.drop_last();
    let under = items_under(s, k);
    if i == s.len() - 1 {
        assert(under[under.len() - 1] == s[i].1);
    } else {
        assert(rest[i] == s[i]);
        lemma_held(rest, i);
        let j = choose|j: int| 0 <= j < items_under(rest, k).len() && items_under(rest, k)[j] == s[i].1;
        assert(under[j] == s[i].1);
    }
}

/// What stands under a key is an item of the list with that key.
proof fn lemma_from_input<T>(s: Seq<(i64, T)>, k: i64, j: int)
    requires
        0 <= j < items_under(s, k).len(),
    ensures
        exists|w: int|
            0 <= w < s.len() && (#[trigger] s[w]).1 == items_under(s, k)[j] && s[w].0 == k,
    decreases s.len(),
{
    let rest = s.drop_last();
    if s.last().0 == k && j == items_under(rest, k).len() {
        assert(s[s.len() - 1] == s.last());
    } else {
        lemma_from_input(rest, k, j);
        let w = choose|w: int|
            0 <= w < rest.len() && (#[trigger] rest[w]).1 == items_under(rest, k)[j] && rest[w].0
                == k;
        assert(s[w] == rest[w]);
    }
}

} // verus!
