//! Of which buckets quantiles are taken.

use vstd::prelude::*;
use crate::double::less_bits;
use crate::labels::{
    in_name_order, lemma_named_ordered, lookup, named, pairs_before, Labels, Pairs,
};
use crate::ordered::{
    increasing, items_under, keys_of, lemma_items_under_empty, lemma_items_under_join,
    lemma_keys_of_exists, lemma_stable_order_exists, stable_order, SortKey,
};
use crate::permutations::{lemma_mapped_permutes, lemma_same_under_every_key};
use crate::prometheus::histogram::{
    bound, bound_of, bucket_series, buckets_of, group_quantiles, histogram_points,
    histogram_series, in_bound_order, quantiles, quantiles_over, timed, timed_buckets,
    without_bound, NumberReader,
};
use crate::prometheus::numbers::{quantile_of, Arithmetic};
use crate::prometheus::operate_laws::ascending;
use crate::prometheus::plan::BinOp;
use crate::prometheus::ranking_laws::{law_ranks_go_by_value, lemma_member};
use crate::prometheus::reduction_laws::{
    lemma_with_points_at, lemma_with_points_ordered, some_has, some_series_has, values_there,
};
use crate::prometheus::rows::{PointView, RangeView};
use crate::prometheus::topk::rank;
use crate::text::ascii_lowered;

verus! {

// ---------- bounds ----------

/// Whether a name is that of the label that carries a bucket's bound.
pub open spec fn is_le(name: Seq<char>) -> bool {
    name == seq!['l', 'e']
}

/// The infinities are read in any letter case, anything else as a number.
pub proof fn law_bounds_are_read<R: Fn(&str) -> Option<u64>>(reader: NumberReader<R>, le: Seq<char>)
    ensures
        ascii_lowered(le) == seq!['+', 'i', 'n', 'f'] || ascii_lowered(le) == seq!['i', 'n', 'f']
            ==> bound(reader, le) == Some(0x7FF0_0000_0000_0000u64),
        ascii_lowered(le) == seq!['-', 'i', 'n', 'f'] ==> bound(reader, le) == Some(
            0xFFF0_0000_0000_0000u64,
        ),
        ascii_lowered(le) != seq!['+', 'i', 'n', 'f'] && ascii_lowered(le) != seq!['i', 'n', 'f']
            && ascii_lowered(le) != seq!['-', 'i', 'n', 'f'] ==> bound(reader, le)
            == reader.number(le),
{
    reveal_strlit("+inf");
    reveal_strlit("inf");
    reveal_strlit("-inf");
    assert("+inf"@ =~= seq!['+', 'i', 'n', 'f']);
    assert("inf"@ =~= seq!['i', 'n', 'f']);
    assert("-inf"@ =~= seq!['-', 'i', 'n', 'f']);
}

/// A bucket's bound is read from its `le` label, and its histogram is known by all
/// of its other labels.
pub proof fn law_buckets_and_their_histograms<R: Fn(&str) -> Option<u64>>(
    reader: NumberReader<R>,
    labels: Pairs,
    name: Seq<char>,
)
    ensures
        bound_of(reader, labels) == match lookup(labels, seq!['l', 'e']) {
            Some(le) => bound(reader, le),
            None => None,
        },
        lookup(without_bound(labels), name) == if is_le(name) {
            None
        } else {
            lookup(labels, name)
        },
        in_name_order(labels) ==> in_name_order(without_bound(labels)),
{
    reveal_strlit("le");
    assert("le"@ =~= seq!['l', 'e']);
    let names = seq!["le"@];
    assert(names[0] == "le"@);
    assert(names.contains(name) == is_le(name));
    lemma_dropped(labels, names, name);
    if in_name_order(labels) {
        lemma_named_ordered(labels, names, false);
    }
}

proof fn lemma_dropped(p: Pairs, names: Seq<Seq<char>>, n: Seq<char>)
    ensures
        lookup(named(p, names, false), n) == if names.contains(n) {
            None
        } else {
            lookup(p, n)
        },
    decreases p.len(),
{
    if p.len() > 0 {
        let rest = p.drop_last();
        lemma_dropped(rest, names, n);
        if !names.contains(p.last().0) {
            assert(named(p, names, false).drop_last() =~= named(rest, names, false));
        }
    }
}

/// Buckets put in the order of their bounds are the same buckets, none before one
/// of a lesser bound.
pub proof fn law_buckets_are_put_in_bound_order(buckets: Seq<(u64, u64)>)
    ensures
        in_bound_order(buckets).to_multiset() == buckets.to_multiset(),
        in_bound_order(buckets).len() == buckets.len(),
        forall|i: int, j: int|
            0 <= i < j < buckets.len() ==> !less_bits(
                (#[trigger] in_bound_order(buckets)[j]).0,
                (#[trigger] in_bound_order(buckets)[i]).0,
            ),
{
    let input = buckets.map_values(|b: (u64, u64)| (rank(b.0, false), b));
    lemma_stable_order_exists::<i64, (u64, u64)>(input);
    let out = stable_order::<i64, (u64, u64)>(input);
    let second = |e: (i64, (u64, u64))| e.1;
    lemma_same_under_every_key(out, input);
    lemma_mapped_permutes(out, input, second);
    assert(input.map_values(second) =~= buckets);
    assert(out.map_values(second) =~= in_bound_order(buckets));
    assert forall|i: int| 0 <= i < out.len() implies (#[trigger] out[i]).0 == rank(
        out[i].1.0,
        false,
    ) by {
        lemma_member(out, input, i);
        let w = choose|w: int| 0 <= w < input.len() && input[w] == out[i];
        assert(input[w] == (rank(buckets[w].0, false), buckets[w]));
    }
    assert forall|i: int, j: int| 0 <= i < j < buckets.len() implies !less_bits(
        (#[trigger] in_bound_order(buckets)[j]).0,
        (#[trigger] in_bound_order(buckets)[i]).0,
    ) by {
        assert(!(out[j].0 < out[i].0));
        law_ranks_go_by_value(out[j].1.0, out[i].1.0, false);
    }
}

// ---------- at an instant ----------

/// The buckets of the histogram that is known by some labels: bound and count of
/// each point that has a bound and, without it, those labels.
pub open spec fn buckets_with<R: Fn(&str) -> Option<u64>>(
    reader: NumberReader<R>,
    points: Seq<PointView>,
    g: Pairs,
) -> Seq<(u64, u64)>
    decreases points.len(),
{
    if points.len() == 0 {
        Seq::empty()
    } else {
        let p = points.last();
        let rest = buckets_with(reader, points.drop_last(), g);
        if bound_of(reader, p.labels) is Some && without_bound(p.labels) == g {
            rest.push((bound_of(reader, p.labels)->0, p.value))
        } else {
            rest
        }
    }
}

proof fn lemma_buckets_with<R: Fn(&str) -> Option<u64>>(
    reader: NumberReader<R>,
    points: Seq<PointView>,
    g: Pairs,
)
    ensures
        buckets_with(reader, points, g) == items_under(buckets_of(reader, points), g),
    decreases points.len(),
{
    if points.len() > 0 {
        lemma_buckets_with(reader, points.drop_last(), g);
        let all = buckets_of(reader, points);
        if bound_of(reader, points.last().labels) is Some {
            assert(all.drop_last() =~= buckets_of(reader, points.drop_last()));
        }
    }
}

proof fn lemma_quantiles<C: Fn(BinOp, u64, u64) -> u64, W: Fn(i128) -> u64>(
    ar: Arithmetic<C, W>,
    input: Seq<(Pairs, (u64, u64))>,
    keys: Seq<Pairs>,
    q: u64,
    time_us: i64,
)
    requires
        increasing::<Labels>(keys),
    ensures
        ({
            let out = quantiles(ar, input, keys, q, time_us);
            &&& forall|i: int|
                0 <= i < out.len() ==> {
                    let p = #[trigger] out[i];
                    &&& p.metric_name == Seq::<char>::empty()
                    &&& p.ts_us == time_us
                    &&& keys.contains(p.labels)
                    &&& quantile_of(ar, in_bound_order(items_under(input, p.labels)), q) == Some(
                        p.value,
                    )
                }
            &&& forall|i: int, j: int|
                0 <= i < j < out.len() ==> pairs_before(
                    (#[trigger] out[i]).labels,
                    (#[trigger] out[j]).labels,
                )
            &&& forall|k: int|
                0 <= k < keys.len() && quantile_of(
                    ar,
                    in_bound_order(items_under(input, #[trigger] keys[k])),
                    q,
                ) is Some ==> some_has(out, keys[k])
        }),
    decreases keys.len(),
{
    let out = quantiles(ar, input, keys, q, time_us);
    if keys.len() > 0 {
        let rest = keys.drop_last();
        let n = keys.len() - 1;
        assert forall|i: int, j: int| 0 <= i < j < rest.len() implies <Labels as SortKey>::before(
            #[trigger] rest[i],
            #[trigger] rest[j],
        ) by {
            assert(<Labels as SortKey>::before(keys[i], keys[j]));
        }
        lemma_quantiles(ar, input, rest, q, time_us);
        let before = quantiles(ar, input, rest, q, time_us);
        assert(keys[n] == keys.last());
        assert forall|i: int| 0 <= i < out.len() implies {
            let p = #[trigger] out[i];
            &&& p.metric_name == Seq::<char>::empty()
            &&& p.ts_us == time_us
            &&& keys.contains(p.labels)
            &&& quantile_of(ar, in_bound_order(items_under(input, p.labels)), q) == Some(p.value)
        } by {
            if i < before.len() {
                assert(out[i] == before[i]);
                let k = choose|k: int| 0 <= k < rest.len() && rest[k] == before[i].labels;
                assert(keys[k] == out[i].labels);
            }
        }
        assert forall|i: int, j: int| 0 <= i < j < out.len() implies pairs_before(
            (#[trigger] out[i]).labels,
            (#[trigger] out[j]).labels,
        ) by {
            assert(out[i] == before[i]);
            if j < before.len() {
                assert(pairs_before(before[i].labels, before[j].labels));
            } else {
                let k = choose|k: int| 0 <= k < rest.len() && rest[k] == before[i].labels;
                assert(<Labels as SortKey>::before(keys[k], keys[n]));
            }
        }
        assert forall|k: int|
            0 <= k < keys.len() && quantile_of(
                ar,
                in_bound_order(items_under(input, #[trigger] keys[k])),
                q,
            ) is Some implies some_has(out, keys[k]) by {
            if k < n {
                assert(rest[k] == keys[k]);
                let i = choose|i: int|
                    0 <= i < before.len() && (#[trigger] before[i]).labels == rest[k];
                assert(out[i].labels == keys[k]);
            } else {
                assert(out[out.len() - 1].labels == keys[n]);
            }
        }
    }
}

/// Each histogram among the points gives one nameless point, at the instant asked
/// for and with the histogram's labels: the quantile of its buckets in the order of
/// their bounds, where they have one. The histograms come in the order of their
/// labels.
pub proof fn law_each_histogram_has_its_quantile<
    C: Fn(BinOp, u64, u64) -> u64,
    W: Fn(i128) -> u64,
    R: Fn(&str) -> Option<u64>,
>(ar: Arithmetic<C, W>, reader: NumberReader<R>, points: Seq<PointView>, q: u64, time_us: i64)
    ensures
        ({
            let out = histogram_points(ar, reader, points, q, time_us);
            &&& forall|i: int|
                0 <= i < out.len() ==> {
                    let p = #[trigger] out[i];
                    &&& p.metric_name == Seq::<char>::empty()
                    &&& p.ts_us == time_us
                    &&& quantile_of(ar, in_bound_order(buckets_with(reader, points, p.labels)), q)
                        == Some(p.value)
                }
            &&& forall|i: int, j: int|
                0 <= i < j < out.len() ==> pairs_before(
                    (#[trigger] out[i]).labels,
                    (#[trigger] out[j]).labels,
                )
            &&& forall|g: Pairs|
                quantile_of(ar, in_bound_order(#[trigger] buckets_with(reader, points, g)), q) is Some
                    ==> some_has(out, g)
        }),
{
    let input = buckets_of(reader, points);
    let keys = keys_of::<Labels, (u64, u64)>(input);
    let out = histogram_points(ar, reader, points, q, time_us);
    lemma_keys_of_exists::<Labels, (u64, u64)>(input);
    lemma_quantiles(ar, input, keys, q, time_us);
    assert forall|i: int| 0 <= i < out.len() implies {
        let p = #[trigger] out[i];
        &&& p.metric_name == Seq::<char>::empty()
        &&& p.ts_us == time_us
        &&& quantile_of(ar, in_bound_order(buckets_with(reader, points, p.labels)), q) == Some(
            p.value,
        )
    } by {
        lemma_buckets_with(reader, points, out[i].labels);
    }
    assert forall|g: Pairs|
        quantile_of(ar, in_bound_order(#[trigger] buckets_with(reader, points, g)), q) is Some implies some_has(
        out,
        g,
    ) by {
        lemma_buckets_with(reader, points, g);
        lemma_items_under_empty(input, g);
        law_buckets_are_put_in_bound_order(items_under(input, g));
        let w = choose|w: int| 0 <= w < input.len() && (#[trigger] input[w]).0 == g;
        assert(keys.contains(input[w].0));
        let k = choose|k: int| 0 <= k < keys.len() && keys[k] == g;
        assert(some_has(out, keys[k]));
    }
}

// ---------- over a range ----------

/// The buckets that a series has at a time: its bound with each of its values there.
pub open spec fn buckets_there(le: u64, points: Seq<(i64, u64)>, ts: i64) -> Seq<(u64, u64)> {
    values_there(points, ts).map_values(|v: u64| (le, v))
}

/// The buckets that the histogram known by some labels has at a time, series by
/// series.
pub open spec fn buckets_at<R: Fn(&str) -> Option<u64>>(
    reader: NumberReader<R>,
    series: Seq<RangeView>,
    g: Pairs,
    ts: i64,
) -> Seq<(u64, u64)>
    decreases series.len(),
{
    if series.len() == 0 {
        Seq::empty()
    } else {
        let s = series.last();
        let rest = buckets_at(reader, series.drop_last(), g, ts);
        if bound_of(reader, s.labels) is Some && without_bound(s.labels) == g {
            rest + buckets_there(bound_of(reader, s.labels)->0, s.points, ts)
        } else {
            rest
        }
    }
}

proof fn lemma_buckets_there(le: u64, points: Seq<(i64, u64)>, ts: i64)
    ensures
        buckets_there(le, points, ts) == items_under(timed(le, points), ts),
    decreases points.len(),
{
    reveal(Seq::filter);
    let there = buckets_there(le, points, ts);
    if points.len() > 0 {
        let rest = points.drop_last();
        lemma_buckets_there(le, rest, ts);
        assert(timed(le, points).drop_last() =~= timed(le, rest));
        if points.last().0 == ts {
            assert(there =~= buckets_there(le, rest, ts).push((le, points.last().1)));
        } else {
            assert(there =~= buckets_there(le, rest, ts));
        }
    } else {
        assert(there =~= Seq::empty());
    }
}

proof fn lemma_buckets_at<R: Fn(&str) -> Option<u64>>(
    reader: NumberReader<R>,
    series: Seq<RangeView>,
    g: Pairs,
    ts: i64,
)
    ensures
        buckets_at(reader, series, g, ts) == items_under(
            timed_buckets(items_under(bucket_series(reader, series), g)),
            ts,
        ),
    decreases series.len(),
{
    let all = bucket_series(reader, series);
    if series.len() > 0 {
        let rest = series.drop_last();
        let s = series.last();
        lemma_buckets_at(reader, rest, g, ts);
        let before = bucket_series(reader, rest);
        if bound_of(reader, s.labels) is Some {
            let le = bound_of(reader, s.labels)->0;
            assert(all.drop_last() =~= before);
            if without_bound(s.labels) == g {
                let members = items_under(all, g);
                assert(members == items_under(before, g).push((le, s.points)));
                assert(members.drop_last() =~= items_under(before, g));
                lemma_buckets_there(le, s.points, ts);
                lemma_items_under_join(
                    timed_buckets(items_under(before, g)),
                    timed(le, s.points),
                    ts,
                );
            }
        }
    }
}

proof fn lemma_quantiles_over<C: Fn(BinOp, u64, u64) -> u64, W: Fn(i128) -> u64>(
    ar: Arithmetic<C, W>,
    input: Seq<(i64, (u64, u64))>,
    times: Seq<i64>,
    q: u64,
)
    requires
        increasing::<i64>(times),
    ensures
        ({
            let out = quantiles_over(ar, input, times, q);
            &&& ascending(out)
            &&& forall|ts: i64, v: u64| #[trigger]
                out.contains((ts, v)) <==> times.contains(ts) && quantile_of(
                    ar,
                    in_bound_order(items_under(input, ts)),
                    q,
                ) == Some(v)
        }),
    decreases times.len(),
{
    let out = quantiles_over(ar, input, times, q);
    if times.len() > 0 {
        let rest = times.drop_last();
        let n = times.len() - 1;
        assert forall|i: int, j: int| 0 <= i < j < rest.len() implies <i64 as SortKey>::before(
            #[trigger] rest[i],
            #[trigger] rest[j],
        ) by {
            assert(<i64 as SortKey>::before(times[i], times[j]));
        }
        lemma_quantiles_over(ar, input, rest, q);
        let before = quantiles_over(ar, input, rest, q);
        assert(times[n] == times.last());
        assert forall|ts: i64, v: u64| #[trigger] out.contains((ts, v)) <==> times.contains(ts)
            && quantile_of(ar, in_bound_order(items_under(input, ts)), q) == Some(v) by {
            if out.contains((ts, v)) {
                let i = choose|i: int| 0 <= i < out.len() && out[i] == (ts, v);
                if i < before.len() {
                    assert(before[i] == (ts, v));
                    assert(before.contains((ts, v)));
                    let k = choose|k: int| 0 <= k < rest.len() && rest[k] == ts;
                    assert(times[k] == ts);
                }
            }
            if times.contains(ts) && quantile_of(ar, in_bound_order(items_under(input, ts)), q)
                == Some(v) {
                let k = choose|k: int| 0 <= k < times.len() && times[k] == ts;
                if k < n {
                    assert(rest[k] == ts);
                    assert(before.contains((ts, v)));
                    let i = choose|i: int| 0 <= i < before.len() && before[i] == (ts, v);
                    assert(out[i] == (ts, v));
                } else {
                    assert(out[out.len() - 1] == (ts, v));
                }
            }
        }
        assert forall|i: int, j: int| 0 <= i < j < out.len() implies (#[trigger] out[i]).0 < (
        #[trigger] out[j]).0 by {
            assert(out[i] == before[i]);
            if j < before.len() {
                assert(before[i].0 < before[j].0);
            } else {
                assert(before.contains((before[i].0, before[i].1)));
                let k = choose|k: int| 0 <= k < rest.len() && rest[k] == before[i].0;
                assert(<i64 as SortKey>::before(times[k], times[n]));
            }
        }
    }
}

proof fn lemma_group_quantiles<
    C: Fn(BinOp, u64, u64) -> u64,
    W: Fn(i128) -> u64,
    R: Fn(&str) -> Option<u64>,
>(ar: Arithmetic<C, W>, reader: NumberReader<R>, series: Seq<RangeView>, g: Pairs, q: u64)
    ensures
        ({
            let out = group_quantiles(ar, items_under(bucket_series(reader, series), g), q);
            &&& ascending(out)
            &&& forall|ts: i64, v: u64| #[trigger]
                out.contains((ts, v)) <==> quantile_of(
                    ar,
                    in_bound_order(buckets_at(reader, series, g, ts)),
                    q,
                ) == Some(v)
        }),
{
    let input = timed_buckets(items_under(bucket_series(reader, series), g));
    let times = keys_of::<i64, (u64, u64)>(input);
    lemma_keys_of_exists::<i64, (u64, u64)>(input);
    lemma_quantiles_over(ar, input, times, q);
    let out = quantiles_over(ar, input, times, q);
    assert forall|ts: i64, v: u64| #[trigger] out.contains((ts, v)) <==> quantile_of(
        ar,
        in_bound_order(buckets_at(reader, series, g, ts)),
        q,
    ) == Some(v) by {
        lemma_buckets_at(reader, series, g, ts);
        if quantile_of(ar, in_bound_order(items_under(input, ts)), q) is Some {
            law_buckets_are_put_in_bound_order(items_under(input, ts));
            lemma_items_under_empty(input, ts);
            let w = choose|w: int| 0 <= w < input.len() && (#[trigger] input[w]).0 == ts;
            assert(times.contains(input[w].0));
        }
    }
}

/// Over a range, each histogram among the series gives one nameless series with the
/// histogram's labels: at each time at which its buckets have a quantile, that
/// quantile, by ascending time. The histograms come in the order of their labels.
pub proof fn law_each_histogram_has_its_quantiles<
    C: Fn(BinOp, u64, u64) -> u64,
    W: Fn(i128) -> u64,
    R: Fn(&str) -> Option<u64>,
>(ar: Arithmetic<C, W>, reader: NumberReader<R>, series: Seq<RangeView>, q: u64)
    ensures
        ({
            let out = histogram_series(ar, reader, series, q);
            &&& forall|i: int|
                0 <= i < out.len() ==> {
                    let s = #[trigger] out[i];
                    &&& s.metric_name == Seq::<char>::empty()
                    &&& s.points.len() > 0
                    &&& ascending(s.points)
                }
            &&& forall|i: int, ts: i64, v: u64|
                0 <= i < out.len() ==> (#[trigger] out[i].points.contains((ts, v)) <==> quantile_of(
                    ar,
                    in_bound_order(buckets_at(reader, series, out[i].labels, ts)),
                    q,
                ) == Some(v))
            &&& forall|g: Pairs, ts: i64|
                quantile_of(
                    ar,
                    in_bound_order(#[trigger] buckets_at(reader, series, g, ts)),
                    q,
                ) is Some ==> some_series_has(out, g)
            &&& forall|i: int, j: int|
                0 <= i < j < out.len() ==> pairs_before(
                    (#[trigger] out[i]).labels,
                    (#[trigger] out[j]).labels,
                )
        }),
{
    let out = histogram_series(ar, reader, series, q);
    let input = bucket_series(reader, series);
    let keys = keys_of::<Labels, (u64, Seq<(i64, u64)>)>(input);
    let all = Seq::new(
        keys.len(),
        |i: int|
            RangeView {
                metric_name: Seq::empty(),
                labels: keys[i],
                points: group_quantiles(ar, items_under(input, keys[i]), q),
            },
    );
    lemma_keys_of_exists::<Labels, (u64, Seq<(i64, u64)>)>(input);
    lemma_with_points_at(all);
    assert forall|i: int, j: int| 0 <= i < j < all.len() implies pairs_before(
        (#[trigger] all[i]).labels,
        (#[trigger] all[j]).labels,
    ) by {
        assert(<Labels as SortKey>::before(keys[i], keys[j]));
    }
    lemma_with_points_ordered(all);
    assert forall|i: int| 0 <= i < out.len() implies {
        let s = #[trigger] out[i];
        &&& s.metric_name == Seq::<char>::empty()
        &&& s.points.len() > 0
        &&& ascending(s.points)
    } by {
        let k = choose|k: int| 0 <= k < all.len() && all[k] == out[i];
        lemma_group_quantiles(ar, reader, series, keys[k], q);
    }
    assert forall|i: int, ts: i64, v: u64| 0 <= i < out.len() implies (
    #[trigger] out[i].points.contains((ts, v)) <==> quantile_of(
        ar,
        in_bound_order(buckets_at(reader, series, out[i].labels, ts)),
        q,
    ) == Some(v)) by {
        assert(all.contains(out[i]));
        let k = choose|k: int| 0 <= k < all.len() && all[k] == out[i];
        lemma_group_quantiles(ar, reader, series, keys[k], q);
    }
    assert forall|g: Pairs, ts: i64|
        quantile_of(ar, in_bound_order(#[trigger] buckets_at(reader, series, g, ts)), q) is Some implies some_series_has(
        out,
        g,
    ) by {
        lemma_buckets_at(reader, series, g, ts);
        lemma_group_quantiles(ar, reader, series, g, q);
        law_buckets_are_put_in_bound_order(buckets_at(reader, series, g, ts));
        lemma_items_under_empty(input, g);
        if items_under(input, g).len() == 0 {
            assert(timed_buckets(items_under(input, g)) =~= Seq::empty());
            assert(buckets_at(reader, series, g, ts).len() == 0);
        }
        let w = choose|w: int| 0 <= w < input.len() && (#[trigger] input[w]).0 == g;
        assert(keys.contains(input[w].0));
        let k = choose|k: int| 0 <= k < keys.len() && keys[k] == g;
        let v = quantile_of(ar, in_bound_order(buckets_at(reader, series, g, ts)), q)->0;
        assert(all[k].points.contains((ts, v)));
        assert(all[k].points.len() > 0);
        let i = choose|i: int| 0 <= i < out.len() && out[i] == all[k];
        assert(out[i].labels == g);
    }
}

} // verus!
