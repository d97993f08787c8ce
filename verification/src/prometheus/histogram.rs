//! `histogram_quantile`: quantiles out of cumulative buckets, series that carry
//! their upper bound in an `le` label.

use vstd::prelude::*;
use crate::double::INFINITE;
use crate::labels::{lookup, named, Labels, Pairs};
use crate::ordered::{
    items_under, keyed, keys_of, lemma_gathered, lemma_gathered_mapped, lemma_stable_order,
    sort_by_key, stable_order, with_items, Groups,
};
use crate::prometheus::numbers::{
    quantile_from_buckets, quantile_of, Arithmetic, NEGATIVE_INFINITE,
};
use crate::prometheus::plan::BinOp;
use crate::prometheus::rows::{
    point_views, range_views, InstantPoint, PointView, RangePoints, RangeView,
};
use crate::prometheus::series::with_points;
use crate::prometheus::topk::{rank, rank_of};
use crate::text::{ascii_lowered, same_text, texts, to_ascii_lower};

verus! {

/// The label that carries a bucket's upper bound.
pub const BOUND_LABEL: &'static str = "le";

/// Reads the number that a text denotes, supplied by the caller.
pub struct NumberReader<R> {
    pub read: R,
}

impl<R: Fn(&str) -> Option<u64>> NumberReader<R> {
    /// The function takes every text, and gives one result for each.
    pub open spec fn wf(self) -> bool {
        &&& forall|s: &str| #[trigger] call_requires(self.read, (s,))
        &&& forall|s: &str, t: &str, a: Option<u64>, b: Option<u64>| #[trigger]
            call_ensures(self.read, (s,), a) && #[trigger] call_ensures(self.read, (t,), b) && s@
                == t@ ==> a == b
    }

    /// The number that a text denotes, if it denotes one.
    pub open spec fn number(self, text: Seq<char>) -> Option<u64> {
        choose|r: Option<u64>| self.gives(text, r)
    }

    /// Whether the function gives a result for a text.
    pub open spec fn gives(self, text: Seq<char>, r: Option<u64>) -> bool {
        exists|s: &str| s@ == text && #[trigger] call_ensures(self.read, (s,), r)
    }

    /// The number that a text denotes, if it denotes one, as the function gives
    /// it.
    pub fn parse(&self, s: &str) -> (r: Option<u64>)
        requires
            self.wf(),
        ensures
            r == self.number(s@),
            call_ensures(self.read, (s,), r),
    {
        let r = (self.read)(s);
        assert(self.gives(s@, r));
        r
    }
}

/// The bound that an `le` value denotes.
pub open spec fn bound<R: Fn(&str) -> Option<u64>>(reader: NumberReader<R>, le: Seq<char>) -> Option<
    u64,
> {
    let lower = ascii_lowered(le);
    if lower == "+inf"@ || lower == "inf"@ {
        Some(INFINITE)
    } else if lower == "-inf"@ {
        Some(NEGATIVE_INFINITE)
    } else {
        reader.number(le)
    }
}

/// The bound that an `le` value denotes: infinities in any letter case, else a
/// number.
pub fn parse_le<R: Fn(&str) -> Option<u64>>(reader: &NumberReader<R>, s: &str) -> (r: Option<u64>)
    requires
        reader.wf(),
    ensures
        r == bound(*reader, s@),
{
    let lower = to_ascii_lower(s);
    if same_text(lower.as_str(), "+inf") || same_text(lower.as_str(), "inf") {
        Some(INFINITE)
    } else if same_text(lower.as_str(), "-inf") {
        Some(NEGATIVE_INFINITE)
    } else {
        reader.parse(s)
    }
}

/// The bound of a bucket series, if it is one.
pub open spec fn bound_of<R: Fn(&str) -> Option<u64>>(reader: NumberReader<R>, labels: Pairs) -> Option<
    u64,
> {
    match lookup(labels, BOUND_LABEL@) {
        Some(le) => bound(reader, le),
        None => None,
    }
}

/// The labels without the bound.
pub open spec fn without_bound(labels: Pairs) -> Pairs {
    named(labels, seq![BOUND_LABEL@], false)
}

fn split_bound<R: Fn(&str) -> Option<u64>>(reader: &NumberReader<R>, labels: &Labels) -> (r: Option<
    (Labels, u64),
>)
    requires
        reader.wf(),
    ensures
        match r {
            Some((rest, le)) => rest@ == without_bound(labels@) && bound_of(*reader, labels@)
                == Some(le),
            None => bound_of(*reader, labels@) is None,
        },
{
    match labels.get(BOUND_LABEL) {
        Some(le) => match parse_le(reader, le.as_str()) {
            Some(v) => {
                let mut names: Vec<String> = Vec::new();
                names.push(BOUND_LABEL.to_string());
                assert(texts(names@) =~= seq![BOUND_LABEL@]);
                Some((labels.filtered(&names, false), v))
            },
            None => None,
        },
        None => None,
    }
}

/// The buckets in the order of their bounds, buckets of one bound in the order
/// they came.
pub open spec fn in_bound_order(buckets: Seq<(u64, u64)>) -> Seq<(u64, u64)> {
    stable_order::<i64, (u64, u64)>(
        buckets.map_values(|b: (u64, u64)| (rank(b.0, false), b)),
    ).map_values(|e: (i64, (u64, u64))| e.1)
}

fn sort_buckets(buckets: &Vec<(u64, u64)>) -> (r: Vec<(u64, u64)>)
    ensures
        r@ == in_bound_order(buckets@),
{
    let ghost input = buckets@.map_values(|b: (u64, u64)| (rank(b.0, false), b));
    let mut pairs: Vec<(i64, (u64, u64))> = Vec::new();
    let mut i: usize = 0;
    while i < buckets.len()
        invariant
            i <= buckets@.len(),
            pairs@.len() == i,
            forall|j: int|
                0 <= j < i ==> #[trigger] pairs@[j] == (rank(buckets@[j].0, false), buckets@[j]),
        decreases buckets@.len() - i,
    {
        let b = buckets[i];
        let k: i64 = rank_of(b.0, false);
        pairs.push((k, b));
        i += 1;
    }
    let sorted = sort_by_key::<i64, (u64, u64)>(pairs);
    proof {
        assert(keyed(pairs@) =~= input);
        assert(keyed(sorted@) =~= sorted@);
        lemma_stable_order::<i64, (u64, u64)>(input, sorted@);
    }
    let mut r: Vec<(u64, u64)> = Vec::new();
    let mut i: usize = 0;
    while i < sorted.len()
        invariant
            i <= sorted@.len(),
            r@.len() == i,
            forall|j: int| 0 <= j < i ==> #[trigger] r@[j] == sorted@[j].1,
        decreases sorted@.len() - i,
    {
        r.push(sorted[i].1);
        i += 1;
    }
    assert(r@ =~= in_bound_order(buckets@));
    r
}

// ---------- instant ----------

/// The buckets among the points, each filed under its labels without the bound.
pub open spec fn buckets_of<R: Fn(&str) -> Option<u64>>(
    reader: NumberReader<R>,
    points: Seq<PointView>,
) -> Seq<(Pairs, (u64, u64))>
    decreases points.len(),
{
    if points.len() == 0 {
        Seq::empty()
    } else {
        let rest = buckets_of(reader, points.drop_last());
        let p = points.last();
        match bound_of(reader, p.labels) {
            Some(le) => rest.push((without_bound(p.labels), (le, p.value))),
            None => rest,
        }
    }
}

/// The quantile of each of the groups of buckets that has one.
pub open spec fn quantiles<C: Fn(BinOp, u64, u64) -> u64, W: Fn(i128) -> u64>(
    ar: Arithmetic<C, W>,
    input: Seq<(Pairs, (u64, u64))>,
    keys: Seq<Pairs>,
    quantile: u64,
    time_us: i64,
) -> Seq<PointView>
    decreases keys.len(),
{
    if keys.len() == 0 {
        Seq::empty()
    } else {
        let rest = quantiles(ar, input, keys.drop_last(), quantile, time_us);
        match quantile_of(ar, in_bound_order(items_under(input, keys.last())), quantile) {
            Some(v) => rest.push(
                PointView {
                    metric_name: Seq::empty(),
                    labels: keys.last(),
                    ts_us: time_us,
                    value: v,
                },
            ),
            None => rest,
        }
    }
}

/// The quantile of every histogram among the points.
pub open spec fn histogram_points<
    C: Fn(BinOp, u64, u64) -> u64,
    W: Fn(i128) -> u64,
    R: Fn(&str) -> Option<u64>,
>(
    ar: Arithmetic<C, W>,
    reader: NumberReader<R>,
    points: Seq<PointView>,
    quantile: u64,
    time_us: i64,
) -> Seq<PointView> {
    let input = buckets_of(reader, points);
    quantiles(ar, input, keys_of::<Labels, (u64, u64)>(input), quantile, time_us)
}

/// Reduce bucket points to one quantile for each set of labels without the
/// bound. Points that are no buckets are dropped.
pub fn histogram_quantile_instant<
    C: Fn(BinOp, u64, u64) -> u64,
    W: Fn(i128) -> u64,
    R: Fn(&str) -> Option<u64>,
>(
    ar: &Arithmetic<C, W>,
    reader: &NumberReader<R>,
    inner: Vec<InstantPoint>,
    quantile: u64,
    time_us: i64,
) -> (r: Vec<InstantPoint>)
    requires
        ar.wf(),
        reader.wf(),
    ensures
        point_views(r@) == histogram_points(
            *ar,
            *reader,
            point_views(inner@),
            quantile,
            time_us,
        ),
{
    let ghost all = point_views(inner@);
    let mut g: Groups<Labels, (u64, u64)> = Groups::new();
    let mut i: usize = 0;
    assert(g.input@ =~= buckets_of(*reader, all.take(0)));
    while i < inner.len()
        invariant
            reader.wf(),
            all == point_views(inner@),
            i <= inner@.len(),
            g.wf(),
            g.input@ == buckets_of(*reader, all.take(i as int)),
        decreases inner@.len() - i,
    {
        let p = &inner[i];
        proof {
            assert(all.take(i as int + 1).drop_last() =~= all.take(i as int));
            assert(all.take(i as int + 1).last() == p@);
        }
        if let Some((rest, le)) = split_bound(reader, &p.labels) {
            g.push(rest, (le, p.value));
        }
        i += 1;
    }
    proof {
        assert(all.take(i as int) =~= all);
        lemma_gathered::<Labels, (u64, u64)>(g.input@, g.key_views(), g.item_views());
    }
    let ghost input = g.input@;
    let ghost keys = g.key_views();
    let mut out: Vec<InstantPoint> = Vec::new();
    let mut i: usize = 0;
    assert(point_views(out@) =~= quantiles(*ar, input, keys.take(0), quantile, time_us));
    while i < g.keys.len()
        invariant
            ar.wf(),
            i <= g.keys@.len(),
            keys == g.key_views(),
            g.items@.len() == g.keys@.len(),
            forall|j: int|
                0 <= j < keys.len() ==> #[trigger] g.item_views()[j] == items_under(input, keys[j]),
            point_views(out@) == quantiles(*ar, input, keys.take(i as int), quantile, time_us),
        decreases g.keys@.len() - i,
    {
        let ghost before = out@;
        proof {
            assert(g.item_views()[i as int] == g.items@[i as int]@);
            assert(keys[i as int] == g.keys@[i as int]@);
            assert(keys.take(i as int + 1).drop_last() =~= keys.take(i as int));
            assert(keys.take(i as int + 1).last() == keys[i as int]);
        }
        let buckets = sort_buckets(&g.items[i]);
        if let Some(v) = quantile_from_buckets(ar, &buckets, quantile) {
            let metric_name = String::new();
            let p = InstantPoint {
                metric_name,
                labels: g.keys[i].clone(),
                ts_us: time_us,
                value: v,
            };
            out.push(p);
            assert(p@.metric_name =~= Seq::empty());
            assert(point_views(out@) =~= point_views(before).push(p@));
        }
        i += 1;
    }
    assert(keys.take(i as int) =~= keys);
    out
}

// ---------- range ----------

/// The bucket series, each filed under its labels without the bound.
pub open spec fn bucket_series<R: Fn(&str) -> Option<u64>>(
    reader: NumberReader<R>,
    series: Seq<RangeView>,
) -> Seq<(Pairs, (u64, Seq<(i64, u64)>))>
    decreases series.len(),
{
    if series.len() == 0 {
        Seq::empty()
    } else {
        let rest = bucket_series(reader, series.drop_last());
        let s = series.last();
        match bound_of(reader, s.labels) {
            Some(le) => rest.push((without_bound(s.labels), (le, s.points))),
            None => rest,
        }
    }
}

/// The buckets of one series with their times.
pub open spec fn timed(le: u64, points: Seq<(i64, u64)>) -> Seq<(i64, (u64, u64))> {
    points.map_values(|p: (i64, u64)| (p.0, (le, p.1)))
}

/// The buckets of a group of series with their times, series by series.
pub open spec fn timed_buckets(group: Seq<(u64, Seq<(i64, u64)>)>) -> Seq<(i64, (u64, u64))>
    decreases group.len(),
{
    if group.len() == 0 {
        Seq::empty()
    } else {
        timed_buckets(group.drop_last()) + timed(group.last().0, group.last().1)
    }
}

/// The quantile at each of the times that has one.
pub open spec fn quantiles_over<C: Fn(BinOp, u64, u64) -> u64, W: Fn(i128) -> u64>(
    ar: Arithmetic<C, W>,
    input: Seq<(i64, (u64, u64))>,
    times: Seq<i64>,
    quantile: u64,
) -> Seq<(i64, u64)>
    decreases times.len(),
{
    if times.len() == 0 {
        Seq::empty()
    } else {
        let rest = quantiles_over(ar, input, times.drop_last(), quantile);
        match quantile_of(ar, in_bound_order(items_under(input, times.last())), quantile) {
            Some(v) => rest.push((times.last(), v)),
            None => rest,
        }
    }
}

/// The quantile of a group of bucket series at every time.
pub open spec fn group_quantiles<C: Fn(BinOp, u64, u64) -> u64, W: Fn(i128) -> u64>(
    ar: Arithmetic<C, W>,
    group: Seq<(u64, Seq<(i64, u64)>)>,
    quantile: u64,
) -> Seq<(i64, u64)> {
    let input = timed_buckets(group);
    quantiles_over(ar, input, keys_of::<i64, (u64, u64)>(input), quantile)
}

/// The quantile of every histogram among the series, time by time. Histograms
/// without a quantile at any time go.
pub open spec fn histogram_series<
    C: Fn(BinOp, u64, u64) -> u64,
    W: Fn(i128) -> u64,
    R: Fn(&str) -> Option<u64>,
>(
    ar: Arithmetic<C, W>,
    reader: NumberReader<R>,
    series: Seq<RangeView>,
    quantile: u64,
) -> Seq<RangeView> {
    let input = bucket_series(reader, series);
    let keys = keys_of::<Labels, (u64, Seq<(i64, u64)>)>(input);
    with_points(
        Seq::new(
            keys.len(),
            |i: int|
                RangeView {
                    metric_name: Seq::empty(),
                    labels: keys[i],
                    points: group_quantiles(ar, items_under(input, keys[i]), quantile),
                },
        ),
    )
}

/// The views of the bucket series of a group.
spec fn bucket_views(s: Seq<(u64, Vec<(i64, u64)>)>) -> Seq<(u64, Seq<(i64, u64)>)> {
    s.map_values(|e: (u64, Vec<(i64, u64)>)| (e.0, e.1@))
}

fn bucket_times(group: &Vec<(u64, Vec<(i64, u64)>)>) -> (g: Groups<i64, (u64, u64)>)
    ensures
        g.wf(),
        g.input@ == timed_buckets(bucket_views(group@)),
{
    let ghost all = bucket_views(group@);
    let mut g: Groups<i64, (u64, u64)> = Groups::new();
    let mut i: usize = 0;
    assert(g.input@ =~= timed_buckets(all.take(0)));
    while i < group.len()
        invariant
            all == bucket_views(group@),
            i <= group@.len(),
            g.wf(),
            g.input@ == timed_buckets(all.take(i as int)),
        decreases group@.len() - i,
    {
        let le: u64 = group[i].0;
        let points = &group[i].1;
        let ghost before = g.input@;
        let mut j: usize = 0;
        assert(g.input@ =~= before + timed(le, points@).take(0));
        while j < points.len()
            invariant
                j <= points@.len(),
                g.wf(),
                g.input@ == before + timed(le, points@).take(j as int),
            decreases points@.len() - j,
        {
            let (ts, v) = points[j];
            g.push(ts, (le, v));
            assert(timed(le, points@)[j as int] == (ts, (le, v)));
            assert(g.input@ =~= before + timed(le, points@).take(j as int + 1));
            j += 1;
        }
        proof {
            assert(timed(le, points@).take(j as int) =~= timed(le, points@));
            assert(all.take(i as int + 1).drop_last() =~= all.take(i as int));
            assert(all.take(i as int + 1).last() == (le, points@));
        }
        i += 1;
    }
    assert(all.take(i as int) =~= all);
    g
}

fn quantile_points<C: Fn(BinOp, u64, u64) -> u64, W: Fn(i128) -> u64>(
    ar: &Arithmetic<C, W>,
    group: &Vec<(u64, Vec<(i64, u64)>)>,
    quantile: u64,
) -> (r: Vec<(i64, u64)>)
    requires
        ar.wf(),
    ensures
        r@ == group_quantiles(*ar, bucket_views(group@), quantile),
{
    let g = bucket_times(group);
    proof {
        lemma_gathered::<i64, (u64, u64)>(g.input@, g.key_views(), g.item_views());
    }
    let ghost input = g.input@;
    let ghost times = g.key_views();
    let mut r: Vec<(i64, u64)> = Vec::new();
    let mut i: usize = 0;
    assert(r@ =~= quantiles_over(*ar, input, times.take(0), quantile));
    while i < g.keys.len()
        invariant
            ar.wf(),
            i <= g.keys@.len(),
            times == g.key_views(),
            g.items@.len() == g.keys@.len(),
            forall|j: int|
                0 <= j < times.len() ==> #[trigger] g.item_views()[j] == items_under(
                    input,
                    times[j],
                ),
            r@ == quantiles_over(*ar, input, times.take(i as int), quantile),
        decreases g.keys@.len() - i,
    {
        proof {
            assert(g.item_views()[i as int] == g.items@[i as int]@);
            assert(times[i as int] == g.keys@[i as int]);
            assert(times.take(i as int + 1).drop_last() =~= times.take(i as int));
            assert(times.take(i as int + 1).last() == times[i as int]);
        }
        let buckets = sort_buckets(&g.items[i]);
        if let Some(v) = quantile_from_buckets(ar, &buckets, quantile) {
            r.push((g.keys[i], v));
        }
        i += 1;
    }
    assert(times.take(i as int) =~= times);
    r
}

/// Reduce bucket series to one quantile series for each set of labels without
/// the bound. Series that are no buckets are dropped.
pub fn histogram_quantile_range<
    C: Fn(BinOp, u64, u64) -> u64,
    W: Fn(i128) -> u64,
    R: Fn(&str) -> Option<u64>,
>(
    ar: &Arithmetic<C, W>,
    reader: &NumberReader<R>,
    inner: Vec<RangePoints>,
    quantile: u64,
) -> (r: Vec<RangePoints>)
    requires
        ar.wf(),
        reader.wf(),
    ensures
        range_views(r@) == histogram_series(*ar, *reader, range_views(inner@), quantile),
{
    let ghost series = range_views(inner@);
    let ghost f = |e: (u64, Vec<(i64, u64)>)| (e.0, e.1@);
    let mut g: Groups<Labels, (u64, Vec<(i64, u64)>)> = Groups::new();
    assert(with_items(g.input@, f) =~= bucket_series(*reader, series.take(0)));
    for s in it: inner
        invariant
            it.seq() == inner@,
            reader.wf(),
            series == range_views(inner@),
            f == (|e: (u64, Vec<(i64, u64)>)| (e.0, e.1@)),
            g.wf(),
            with_items(g.input@, f) == bucket_series(
                *reader,
                series.take(it.index() as int),
            ),
            series.take(series.len() as int) =~= series,
    {
        let ghost before = g.input@;
        let ghost s0 = s@;
        proof {
            let t = series.take(it.index() as int + 1);
            assert(t.drop_last() =~= series.take(it.index() as int));
            assert(t.last() == s0);
        }
        if let Some((rest, le)) = split_bound(reader, &s.labels) {
            let ghost k = rest@;
            g.push(rest, (le, s.points));
            assert(with_items(g.input@, f) =~= with_items(
                before,
                f,
            ).push((k, (le, s0.points))));
        }
    }
    let ghost input = bucket_series(*reader, series);
    proof {
        lemma_gathered_mapped::<
            Labels,
            (u64, Vec<(i64, u64)>),
            (u64, Seq<(i64, u64)>),
        >(g.input@, g.key_views(), g.item_views(), f);
    }
    let ghost keys = g.key_views();
    let ghost all = Seq::new(
        keys.len(),
        |i: int|
            RangeView {
                metric_name: Seq::empty(),
                labels: keys[i],
                points: group_quantiles(*ar, items_under(input, keys[i]), quantile),
            },
    );
    let mut out: Vec<RangePoints> = Vec::new();
    let mut i: usize = 0;
    assert(range_views(out@) =~= with_points(all.take(0)));
    while i < g.keys.len()
        invariant
            ar.wf(),
            i <= g.keys@.len(),
            keys == g.key_views(),
            g.items@.len() == g.keys@.len(),
            f == (|e: (u64, Vec<(i64, u64)>)| (e.0, e.1@)),
            forall|j: int|
                0 <= j < keys.len() ==> (#[trigger] g.item_views()[j]).map_values(f) == items_under(
                    input,
                    keys[j],
                ),
            all.len() == keys.len(),
            forall|j: int|
                0 <= j < keys.len() ==> #[trigger] all[j] == (RangeView {
                    metric_name: Seq::empty(),
                    labels: keys[j],
                    points: group_quantiles(*ar, items_under(input, keys[j]), quantile),
                }),
            range_views(out@) == with_points(all.take(i as int)),
        decreases g.keys@.len() - i,
    {
        let ghost before = out@;
        proof {
            assert(g.item_views()[i as int] == g.items@[i as int]@);
            assert(bucket_views(g.items@[i as int]@) =~= g.item_views()[i as int].map_values(f));
            assert(keys[i as int] == g.keys@[i as int]@);
            let t = all.take(i as int + 1);
            assert(t.drop_last() =~= all.take(i as int));
            assert(t.last() == all[i as int]);
        }
        let points = quantile_points(ar, &g.items[i], quantile);
        if points.len() > 0 {
            let metric_name = String::new();
            let n = RangePoints { metric_name, labels: g.keys[i].clone(), points };
            out.push(n);
            assert(n@.metric_name =~= Seq::empty());
            assert(range_views(out@) =~= range_views(before).push(n@));
        }
        i += 1;
    }
    assert(all.take(i as int) =~= all);
    out
}

} // verus!
