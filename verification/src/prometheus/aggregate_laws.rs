//! An aggregation that SQL computes is the aggregation of the selector's points.
//!
//! What an aggregating statement is meant to return is stated over the samples
//! that its `WHERE` clause leaves: one row for each instant and each set of
//! retained label values, with the aggregate of the group's values, the rows of a
//! group by time. In which order a group's values are added up is left open. A
//! statement at an instant does so with the latest sample of each series.

use vstd::prelude::*;
use vstd::seq_lib::group_to_multiset_ensures;
use crate::labels::{
    in_name_order, is_label_map, lemma_label_map, lemma_named_ordered, lookup, named, Labels, Pairs,
};
use crate::ordered::{
    flat, has_key, increasing, items_under, keys_of, lemma_item_comes_from, lemma_item_is_under,
    lemma_items_under_empty, lemma_items_under_join, lemma_items_under_mapped, lemma_keys_of,
    lemma_keys_of_exists, with_items, SortKey,
};
use crate::permutations::{
    key_by_key, lemma_distinct, lemma_filter_keeps, lemma_gathering_permutes, lemma_items_in_order,
    lemma_mapped_permutes, lemma_same_items, lemma_under_permuted,
};
use crate::prometheus::aggregate::{
    aggregated, aggregated_series, all_points, points_by_group, reduced_by_time, retained,
    series_by_group, values_of,
};
use crate::prometheus::ast::{Grouping, MatcherView, SelectorView};
use crate::prometheus::decode::{
    aggregate_points, aggregate_series, group_labels, group_values, present, rows_fit, GroupRow,
};
use crate::prometheus::numbers::{reduced, Arithmetic};
use crate::prometheus::plan::{pushes_down, AggOp, BinOp};
use crate::prometheus::rows::{
    key_text, kept_rows, meets_all, row_matchers, PointView, RangeView,
};
use crate::prometheus::series::{by_series, latest_of, law_latest, series_of, with_points};
use crate::prometheus::sql::group_keys;

verus! {

// ---------- what the statement returns ----------

/// What a row shows of a series' labels: each retained label's value, or a gap
/// where the series has no such label.
pub open spec fn cells(labels: Pairs, keys: Seq<Seq<char>>) -> Seq<Option<Seq<char>>> {
    keys.map_values(|k: Seq<char>| lookup(labels, k))
}

/// The text of a cell.
pub open spec fn cell_text(v: Option<String>) -> Option<Seq<char>> {
    match v {
        Some(t) => Some(t@),
        None => None,
    }
}

/// The label values that a row shows.
pub open spec fn row_cells(row: GroupRow) -> Seq<Option<Seq<char>>> {
    row.labels@.map_values(|v: Option<String>| cell_text(v))
}

/// Whether a sample belongs to a row's group: it is of that instant, and its
/// series has the label values that the row shows.
pub open spec fn falls_into(p: PointView, row: GroupRow, keys: Seq<Seq<char>>) -> bool {
    p.ts_us == row.ts_us && cells(p.labels, keys) == row_cells(row)
}

/// The values of a row's group.
pub open spec fn values_in(samples: Seq<PointView>, row: GroupRow, keys: Seq<Seq<char>>) -> Seq<u64>
    decreases samples.len(),
{
    if samples.len() == 0 {
        Seq::empty()
    } else {
        let rest = values_in(samples.drop_last(), row, keys);
        if falls_into(samples.last(), row, keys) {
            rest.push(samples.last().value)
        } else {
            rest
        }
    }
}

/// Whether a value is the aggregate of some values, taken in some order.
pub open spec fn is_aggregate<C: Fn(BinOp, u64, u64) -> u64, W: Fn(i128) -> u64>(
    ar: Arithmetic<C, W>,
    op: AggOp,
    values: Seq<u64>,
    v: u64,
) -> bool {
    exists|vs: Seq<u64>|
        vs.to_multiset() == values.to_multiset() && v == #[trigger] reduced(ar, op, vs)
}

/// Whether rows are what an aggregating statement over a range is meant to return
/// of these samples: every sample falls into a row; a row's group has samples, and
/// its value is their aggregate; and rows of the same label values have different
/// instants, the earlier one first.
pub open spec fn answers_aggregate<C: Fn(BinOp, u64, u64) -> u64, W: Fn(i128) -> u64>(
    ar: Arithmetic<C, W>,
    rows: Seq<GroupRow>,
    samples: Seq<PointView>,
    keys: Seq<Seq<char>>,
    op: AggOp,
) -> bool {
    &&& rows_fit(rows, keys)
    &&& forall|i: int|
        0 <= i < samples.len() ==> exists|j: int|
            0 <= j < rows.len() && falls_into(#[trigger] samples[i], #[trigger] rows[j], keys)
    &&& forall|j: int|
        0 <= j < rows.len() ==> {
            let values = values_in(samples, #[trigger] rows[j], keys);
            &&& values.len() > 0
            &&& rows[j].value is Some
            &&& is_aggregate(ar, op, values, rows[j].value->0)
        }
    &&& forall|a: int, b: int|
        0 <= a < b < rows.len() && row_cells(#[trigger] rows[a]) == row_cells(#[trigger] rows[b])
            ==> rows[a].ts_us < rows[b].ts_us
}

// ---------- the law ----------

/// The samples' values, each filed under its group's labels and its instant.
pub open spec fn by_group_and_time(samples: Seq<PointView>, modifier: Option<&Grouping>) -> Seq<
    ((Pairs, i64), u64),
> {
    samples.map_values(|p: PointView| ((retained(p.labels, modifier), p.ts_us), p.value))
}

/// Whether points have ascending times, none twice.
pub open spec fn rising(points: Seq<(i64, u64)>) -> bool {
    forall|i: int, j: int|
        0 <= i < j < points.len() ==> (#[trigger] points[i]).0 < (#[trigger] points[j]).0
}

/// Whether two aggregations are the same up to the order in which values were
/// aggregated: the same groups in the same order, without names, at the same
/// ascending instants, and each value in either the aggregate of the group's samples of
/// that instant.
pub open spec fn same_up_to_order<C: Fn(BinOp, u64, u64) -> u64, W: Fn(i128) -> u64>(
    ar: Arithmetic<C, W>,
    op: AggOp,
    samples: Seq<PointView>,
    modifier: Option<&Grouping>,
    a: Seq<RangeView>,
    b: Seq<RangeView>,
) -> bool {
    &&& a.len() == b.len()
    &&& forall|i: int|
        0 <= i < a.len() ==> {
            &&& (#[trigger] a[i]).metric_name == Seq::<char>::empty()
            &&& b[i].metric_name == Seq::<char>::empty()
            &&& a[i].labels == b[i].labels
            &&& a[i].points.len() == b[i].points.len()
            &&& rising(a[i].points)
        }
    &&& forall|i: int, j: int|
        0 <= i < a.len() && 0 <= j < a[i].points.len() ==> {
            let (ts, v) = #[trigger] a[i].points[j];
            let values = items_under(by_group_and_time(samples, modifier), (a[i].labels, ts));
            &&& values.len() > 0
            &&& b[i].points[j].0 == ts
            &&& is_aggregate(ar, op, values, v)
            &&& is_aggregate(ar, op, values, b[i].points[j].1)
        }
}

/// Whether an aggregate does not depend on the order of the values.
pub open spec fn order_free<C: Fn(BinOp, u64, u64) -> u64, W: Fn(i128) -> u64>(
    ar: Arithmetic<C, W>,
    op: AggOp,
) -> bool {
    forall|a: Seq<u64>, b: Seq<u64>|
        a.to_multiset() == b.to_multiset() ==> #[trigger] reduced(ar, op, a) == #[trigger] reduced(
            ar,
            op,
            b,
        )
}

/// A count does not depend on the order of what is counted.
pub proof fn law_counts_are_order_free<C: Fn(BinOp, u64, u64) -> u64, W: Fn(i128) -> u64>(
    ar: Arithmetic<C, W>,
)
    ensures
        order_free(ar, AggOp::Count),
{
    broadcast use group_to_multiset_ensures;

    assert forall|a: Seq<u64>, b: Seq<u64>| a.to_multiset() == b.to_multiset() implies #[trigger] reduced(
        ar,
        AggOp::Count,
        a,
    ) == #[trigger] reduced(ar, AggOp::Count, b) by {
        assert(a.len() == a.to_multiset().len());
        assert(b.len() == b.to_multiset().len());
    }
}

/// Whether samples of different groups have different identifying texts.
pub open spec fn tells_groups_apart(samples: Seq<PointView>, modifier: Option<&Grouping>) -> bool {
    forall|i: int, j: int|
        0 <= i < samples.len() && 0 <= j < samples.len() && key_text(
            (#[trigger] samples[i]).metric_name,
            samples[i].labels,
        ) == key_text((#[trigger] samples[j]).metric_name, samples[j].labels) ==> retained(
            samples[i].labels,
            modifier,
        ) == retained(samples[j].labels, modifier)
}

/// Whether a selector has no matchers but `=` and `!=`.
pub open spec fn has_plain_matchers(sel: SelectorView) -> bool {
    forall|i: int|
        0 <= i < sel.matchers.len() ==> (#[trigger] sel.matchers[i]).op is Equal
            || sel.matchers[i].op is NotEqual
}

// ---------- labels and cells ----------

proof fn lemma_lookup_named(p: Pairs, names: Seq<Seq<char>>, n: Seq<char>)
    ensures
        lookup(named(p, names, true), n) == if names.contains(n) {
            lookup(p, n)
        } else {
            None
        },
    decreases p.len(),
{
    if p.len() > 0 {
        let rest = p.drop_last();
        lemma_lookup_named(rest, names, n);
        let before = named(rest, names, true);
        if names.contains(p.last().0) {
            assert(named(p, names, true).drop_last() =~= before);
        }
    }
}

proof fn lemma_lookup_present(
    keys: Seq<Seq<char>>,
    values: Seq<Option<String>>,
    labels: Pairs,
    n: Seq<char>,
)
    requires
        keys.len() <= values.len(),
        forall|i: int|
            0 <= i < keys.len() ==> cell_text(#[trigger] values[i]) == lookup(labels, keys[i]),
    ensures
        lookup(present(keys, values), n) == if keys.contains(n) {
            lookup(labels, n)
        } else {
            None
        },
    decreases keys.len(),
{
    if keys.len() > 0 {
        let rest = keys.drop_last();
        let k = keys.last();
        assert forall|i: int| 0 <= i < rest.len() implies cell_text(#[trigger] values[i]) == lookup(
            labels,
            rest[i],
        ) by {
            assert(rest[i] == keys[i]);
        }
        lemma_lookup_present(rest, values, labels, n);
        let before = present(rest, values);
        if values[keys.len() - 1] is Some {
            assert(present(keys, values).drop_last() =~= before);
        }
        assert(keys[keys.len() - 1] == k);
        if rest.contains(n) {
            let w = choose|w: int| 0 <= w < rest.len() && rest[w] == n;
            assert(keys[w] == n);
        }
        if keys.contains(n) && n != k {
            let w = choose|w: int| 0 <= w < keys.len() && keys[w] == n;
            assert(rest[w] == n);
        }
    }
}

/// The labels that a row's cells make are those that its samples' groups are
/// known by.
proof fn lemma_row_labels(labels: Pairs, row: GroupRow, modifier: Option<&Grouping>)
    requires
        pushes_down(modifier),
        in_name_order(labels),
        row.labels@.len() == group_keys(modifier).len(),
        cells(labels, group_keys(modifier)) == row_cells(row),
    ensures
        group_labels(group_keys(modifier), row.labels@) == retained(labels, modifier),
{
    let keys = group_keys(modifier);
    let values = row.labels@;
    let q = retained(labels, modifier);
    assert forall|i: int| 0 <= i < keys.len() implies cell_text(#[trigger] values[i]) == lookup(
        labels,
        keys[i],
    ) by {
        assert(cells(labels, keys)[i] == row_cells(row)[i]);
    }
    assert forall|n: Seq<char>| #[trigger] lookup(q, n) == lookup(present(keys, values), n) by {
        lemma_lookup_present(keys, values, labels, n);
        lemma_lookup_named(labels, keys, n);
    }
    if modifier is Some {
        lemma_named_ordered(labels, keys, true);
    }
    assert(is_label_map(q, present(keys, values)));
    lemma_label_map(q, present(keys, values));
}

/// Groups known by the same labels show the same cells.
proof fn lemma_group_cells(a: Pairs, b: Pairs, modifier: Option<&Grouping>)
    requires
        pushes_down(modifier),
        retained(a, modifier) == retained(b, modifier),
    ensures
        cells(a, group_keys(modifier)) == cells(b, group_keys(modifier)),
{
    let keys = group_keys(modifier);
    assert forall|i: int| 0 <= i < keys.len() implies #[trigger] cells(a, keys)[i] == cells(
        b,
        keys,
    )[i] by {
        lemma_lookup_named(a, keys, keys[i]);
        lemma_lookup_named(b, keys, keys[i]);
        assert(keys.contains(keys[i]));
    }
    assert(cells(a, keys) =~= cells(b, keys));
}

// ---------- the selector's points ----------

/// A point with its group and its instant.
spec fn tag(labels: Pairs, modifier: Option<&Grouping>, points: Seq<(i64, u64)>) -> Seq<
    ((Pairs, i64), u64),
> {
    points.map_values(|p: (i64, u64)| ((retained(labels, modifier), p.0), p.1))
}

/// Every point of a list of series with its group and its instant.
spec fn tagged(series: Seq<RangeView>, modifier: Option<&Grouping>) -> Seq<((Pairs, i64), u64)>
    decreases series.len(),
{
    if series.len() == 0 {
        Seq::empty()
    } else {
        tagged(series.drop_last(), modifier) + tag(
            series.last().labels,
            modifier,
            series.last().points,
        )
    }
}

proof fn lemma_tag_under(
    labels: Pairs,
    modifier: Option<&Grouping>,
    points: Seq<(i64, u64)>,
    g: Pairs,
    t: i64,
)
    ensures
        items_under(tag(labels, modifier, points), (g, t)) == if retained(labels, modifier) == g {
            items_under(points, t)
        } else {
            Seq::empty()
        },
    decreases points.len(),
{
    if points.len() > 0 {
        lemma_tag_under(labels, modifier, points.drop_last(), g, t);
        assert(tag(labels, modifier, points).drop_last() =~= tag(
            labels,
            modifier,
            points.drop_last(),
        ));
    }
}

proof fn lemma_tagged_under(series: Seq<RangeView>, modifier: Option<&Grouping>, g: Pairs, t: i64)
    ensures
        items_under(all_points(items_under(series_by_group(series, modifier), g)), t)
            == items_under(tagged(series, modifier), (g, t)),
    decreases series.len(),
{
    let input = series_by_group(series, modifier);
    if series.len() > 0 {
        let rest = series.drop_last();
        let last = series.last();
        lemma_tagged_under(rest, modifier, g, t);
        assert(input.drop_last() =~= series_by_group(rest, modifier));
        assert(input.last() == (retained(last.labels, modifier), last));
        let before = items_under(series_by_group(rest, modifier), g);
        let chunk = tag(last.labels, modifier, last.points);
        lemma_items_under_join(tagged(rest, modifier), chunk, (g, t));
        lemma_tag_under(last.labels, modifier, last.points, g, t);
        if retained(last.labels, modifier) == g {
            assert(items_under(input, g) == before.push(last));
            assert(before.push(last).drop_last() =~= before);
            lemma_items_under_join(all_points(before), last.points, t);
        } else {
            assert(items_under(tagged(series, modifier), (g, t)) =~= items_under(
                tagged(rest, modifier),
                (g, t),
            ));
        }
    } else {
        assert(items_under(input, g) =~= Seq::empty());
        assert(all_points(items_under(input, g)) =~= Seq::empty());
    }
}

proof fn lemma_tagged_flat(
    series: Seq<RangeView>,
    modifier: Option<&Grouping>,
    lists: Seq<Seq<((Pairs, i64), u64)>>,
)
    requires
        series.len() == lists.len(),
        forall|w: int|
            0 <= w < series.len() ==> #[trigger] lists[w] == tag(
                series[w].labels,
                modifier,
                series[w].points,
            ),
    ensures
        tagged(series, modifier) == flat(lists),
    decreases series.len(),
{
    if series.len() > 0 {
        let rest = series.drop_last();
        assert forall|w: int| 0 <= w < rest.len() implies #[trigger] lists.drop_last()[w] == tag(
            rest[w].labels,
            modifier,
            rest[w].points,
        ) by {
            assert(lists.drop_last()[w] == lists[w]);
        }
        lemma_tagged_flat(rest, modifier, lists.drop_last());
        assert(lists[lists.len() - 1] == tag(series.last().labels, modifier, series.last().points));
    }
}

/// The rows of one series are of its group.
proof fn lemma_series_rows(
    samples: Seq<PointView>,
    modifier: Option<&Grouping>,
    w: int,
    j: int,
)
    requires
        tells_groups_apart(samples, modifier),
        0 <= w < keys_of::<String, PointView>(by_series(samples)).len(),
        0 <= j < items_under(
            by_series(samples),
            keys_of::<String, PointView>(by_series(samples))[w],
        ).len(),
    ensures
        ({
            let k = keys_of::<String, PointView>(by_series(samples))[w];
            let rows = items_under(by_series(samples), k);
            &&& retained(rows[j].labels, modifier) == retained(
                series_of(samples)[w].labels,
                modifier,
            )
            &&& exists|i: int|
                0 <= i < samples.len() && #[trigger] samples[i] == rows[j] && key_text(
                    samples[i].metric_name,
                    samples[i].labels,
                ) == k
        }),
{
    let input = by_series(samples);
    let k = keys_of::<String, PointView>(input)[w];
    let rows = items_under(input, k);
    lemma_item_comes_from(input, k, j);
    lemma_item_comes_from(input, k, 0);
    let i = choose|i: int| 0 <= i < input.len() && #[trigger] input[i] == (k, rows[j]);
    let i0 = choose|i0: int| 0 <= i0 < input.len() && #[trigger] input[i0] == (k, rows[0]);
    assert(samples[i] == rows[j]);
    assert(samples[i0] == rows[0]);
}

/// The points of the series that samples make are the samples, in another order.
proof fn lemma_points_permuted(samples: Seq<PointView>, modifier: Option<&Grouping>)
    requires
        tells_groups_apart(samples, modifier),
    ensures
        tagged(series_of(samples), modifier).to_multiset() == by_group_and_time(
            samples,
            modifier,
        ).to_multiset(),
{
    let f = |p: PointView| ((retained(p.labels, modifier), p.ts_us), p.value);
    let input = by_series(samples);
    let keys = keys_of::<String, PointView>(input);
    lemma_keys_of_exists::<String, PointView>(input);
    let x = with_items(input, f);
    lemma_increasing_distinct(keys);
    assert forall|i: int| 0 <= i < x.len() implies keys.contains((#[trigger] x[i]).0) by {
        assert(x[i].0 == input[i].0);
    }
    lemma_gathering_permutes(x, keys);
    assert(x.map_values(|e: (Seq<char>, ((Pairs, i64), u64))| e.1) =~= by_group_and_time(
        samples,
        modifier,
    ));
    let lists = key_by_key(x, keys);
    let series = series_of(samples);
    assert forall|w: int| 0 <= w < series.len() implies #[trigger] lists[w] == tag(
        series[w].labels,
        modifier,
        series[w].points,
    ) by {
        let rows = items_under(input, keys[w]);
        lemma_items_under_mapped(input, f, keys[w]);
        assert forall|j: int| 0 <= j < rows.len() implies retained(
            (#[trigger] rows[j]).labels,
            modifier,
        ) == retained(series[w].labels, modifier) by {
            lemma_series_rows(samples, modifier, w, j);
        }
        assert(lists[w] =~= tag(series[w].labels, modifier, series[w].points));
    }
    lemma_tagged_flat(series, modifier, lists);
}

proof fn lemma_increasing_distinct(keys: Seq<Seq<char>>)
    requires
        increasing::<String>(keys),
    ensures
        keys.no_duplicates(),
{
    assert forall|i: int, j: int| 0 <= i < keys.len() && 0 <= j < keys.len() && i != j implies keys[i]
        != keys[j] by {
        let (a, b) = if i < j {
            (i, j)
        } else {
            (j, i)
        };
        assert(<String as SortKey>::before(keys[a], keys[b]));
        <String as SortKey>::irreflexive(keys[a]);
    }
}

/// The groups of the selector's series are those that its samples have.
proof fn lemma_point_groups(samples: Seq<PointView>, modifier: Option<&Grouping>, g: Pairs)
    requires
        tells_groups_apart(samples, modifier),
    ensures
        has_key(series_by_group(series_of(samples), modifier), g) <==> exists|i: int|
            0 <= i < samples.len() && retained((#[trigger] samples[i]).labels, modifier) == g,
{
    let series = series_of(samples);
    let groups = series_by_group(series, modifier);
    let input = by_series(samples);
    let keys = keys_of::<String, PointView>(input);
    lemma_keys_of_exists::<String, PointView>(input);
    if has_key(groups, g) {
        let w = choose|w: int| 0 <= w < groups.len() && (#[trigger] groups[w]).0 == g;
        assert(has_key(input, keys[w]));
        lemma_items_under_empty(input, keys[w]);
        lemma_series_rows(samples, modifier, w, 0);
        let rows = items_under(input, keys[w]);
        let i = choose|i: int|
            0 <= i < samples.len() && #[trigger] samples[i] == rows[0] && key_text(
                samples[i].metric_name,
                samples[i].labels,
            ) == keys[w];
        assert(retained(samples[i].labels, modifier) == g);
    }
    if exists|i: int|
        0 <= i < samples.len() && retained((#[trigger] samples[i]).labels, modifier) == g {
        let i = choose|i: int|
            0 <= i < samples.len() && retained((#[trigger] samples[i]).labels, modifier) == g;
        assert(keys.contains(input[i].0));
        let w = choose|w: int| 0 <= w < keys.len() && keys[w] == input[i].0;
        assert(has_key(input, keys[w]));
        lemma_items_under_empty(input, keys[w]);
        lemma_series_rows(samples, modifier, w, 0);
        let rows = items_under(input, keys[w]);
        let i0 = choose|i0: int|
            0 <= i0 < samples.len() && #[trigger] samples[i0] == rows[0] && key_text(
                samples[i0].metric_name,
                samples[i0].labels,
            ) == keys[w];
        assert(retained(samples[i0].labels, modifier) == retained(samples[i].labels, modifier));
        assert(groups[w].0 == g);
    }
}

/// The values that a group has at an instant, among the points of its series and
/// among the samples.
proof fn lemma_point_values(
    samples: Seq<PointView>,
    modifier: Option<&Grouping>,
    g: Pairs,
    t: i64,
)
    requires
        tells_groups_apart(samples, modifier),
    ensures
        ({
            let points = all_points(items_under(series_by_group(series_of(samples), modifier), g));
            let values = items_under(by_group_and_time(samples, modifier), (g, t));
            &&& items_under(points, t).to_multiset() == values.to_multiset()
            &&& has_key(points, t) <==> values.len() > 0
        }),
{
    let series = series_of(samples);
    let points = all_points(items_under(series_by_group(series, modifier), g));
    lemma_points_permuted(samples, modifier);
    lemma_tagged_under(series, modifier, g, t);
    lemma_under_permuted(tagged(series, modifier), by_group_and_time(samples, modifier), (g, t));
    lemma_items_under_empty(points, t);
}

// ---------- the rows of the statement ----------

proof fn lemma_has_member(samples: Seq<PointView>, row: GroupRow, keys: Seq<Seq<char>>)
    requires
        values_in(samples, row, keys).len() > 0,
    ensures
        exists|i: int| 0 <= i < samples.len() && falls_into(#[trigger] samples[i], row, keys),
    decreases samples.len(),
{
    if falls_into(samples.last(), row, keys) {
        assert(falls_into(samples[samples.len() - 1], row, keys));
    } else {
        let rest = samples.drop_last();
        lemma_has_member(rest, row, keys);
        let i = choose|i: int| 0 <= i < rest.len() && falls_into(#[trigger] rest[i], row, keys);
        assert(falls_into(samples[i], row, keys));
    }
}

/// The labels that a row's group is known by.
spec fn row_group(row: GroupRow, modifier: Option<&Grouping>) -> Pairs {
    group_labels(group_keys(modifier), row.labels@)
}

/// A row's values are those that its group has at its instant. `member` is the
/// labels of some sample of the group.
proof fn lemma_values_in(
    samples: Seq<PointView>,
    row: GroupRow,
    modifier: Option<&Grouping>,
    member: Pairs,
)
    requires
        pushes_down(modifier),
        in_name_order(member),
        forall|i: int| 0 <= i < samples.len() ==> in_name_order((#[trigger] samples[i]).labels),
        row.labels@.len() == group_keys(modifier).len(),
        cells(member, group_keys(modifier)) == row_cells(row),
    ensures
        values_in(samples, row, group_keys(modifier)) == items_under(
            by_group_and_time(samples, modifier),
            (row_group(row, modifier), row.ts_us),
        ),
    decreases samples.len(),
{
    if samples.len() > 0 {
        let rest = samples.drop_last();
        let p = samples.last();
        let keys = group_keys(modifier);
        assert forall|i: int| 0 <= i < rest.len() implies in_name_order(
            (#[trigger] rest[i]).labels,
        ) by {
            assert(rest[i] == samples[i]);
        }
        lemma_values_in(rest, row, modifier, member);
        assert(by_group_and_time(samples, modifier).drop_last() =~= by_group_and_time(
            rest,
            modifier,
        ));
        assert(in_name_order(samples[samples.len() - 1].labels));
        lemma_row_labels(member, row, modifier);
        if cells(p.labels, keys) == row_cells(row) {
            lemma_row_labels(p.labels, row, modifier);
        }
        if retained(p.labels, modifier) == retained(member, modifier) {
            lemma_group_cells(p.labels, member, modifier);
        }
    }
}

/// What is required of the samples and the rows.
spec fn answered<C: Fn(BinOp, u64, u64) -> u64, W: Fn(i128) -> u64>(
    ar: Arithmetic<C, W>,
    samples: Seq<PointView>,
    rows: Seq<GroupRow>,
    op: AggOp,
    modifier: Option<&Grouping>,
) -> bool {
    &&& pushes_down(modifier)
    &&& forall|i: int| 0 <= i < samples.len() ==> in_name_order((#[trigger] samples[i]).labels)
    &&& answers_aggregate(ar, rows, samples, group_keys(modifier), op)
}

/// What a row is of.
proof fn lemma_row<C: Fn(BinOp, u64, u64) -> u64, W: Fn(i128) -> u64>(
    ar: Arithmetic<C, W>,
    samples: Seq<PointView>,
    rows: Seq<GroupRow>,
    op: AggOp,
    modifier: Option<&Grouping>,
    j: int,
)
    requires
        answered(ar, samples, rows, op, modifier),
        0 <= j < rows.len(),
    ensures
        ({
            let row = rows[j];
            let g = row_group(row, modifier);
            let values = items_under(by_group_and_time(samples, modifier), (g, row.ts_us));
            &&& row.value is Some
            &&& values.len() > 0
            &&& is_aggregate(ar, op, values, row.value->0)
            &&& exists|i: int|
                0 <= i < samples.len() && retained((#[trigger] samples[i]).labels, modifier) == g
                    && cells(samples[i].labels, group_keys(modifier)) == row_cells(row)
        }),
{
    let keys = group_keys(modifier);
    let row = rows[j];
    assert(values_in(samples, row, keys).len() > 0);
    lemma_has_member(samples, row, keys);
    let i = choose|i: int| 0 <= i < samples.len() && falls_into(#[trigger] samples[i], row, keys);
    lemma_values_in(samples, row, modifier, samples[i].labels);
    lemma_row_labels(samples[i].labels, row, modifier);
}

/// Rows of one group show the same label values.
proof fn lemma_same_cells<C: Fn(BinOp, u64, u64) -> u64, W: Fn(i128) -> u64>(
    ar: Arithmetic<C, W>,
    samples: Seq<PointView>,
    rows: Seq<GroupRow>,
    op: AggOp,
    modifier: Option<&Grouping>,
    a: int,
    b: int,
)
    requires
        answered(ar, samples, rows, op, modifier),
        0 <= a < rows.len(),
        0 <= b < rows.len(),
        row_group(rows[a], modifier) == row_group(rows[b], modifier),
    ensures
        row_cells(rows[a]) == row_cells(rows[b]),
{
    lemma_row(ar, samples, rows, op, modifier, a);
    lemma_row(ar, samples, rows, op, modifier, b);
    let keys = group_keys(modifier);
    let i = choose|i: int|
        0 <= i < samples.len() && retained((#[trigger] samples[i]).labels, modifier) == row_group(
            rows[a],
            modifier,
        ) && cells(samples[i].labels, keys) == row_cells(rows[a]);
    let j = choose|j: int|
        0 <= j < samples.len() && retained((#[trigger] samples[j]).labels, modifier) == row_group(
            rows[b],
            modifier,
        ) && cells(samples[j].labels, keys) == row_cells(rows[b]);
    lemma_group_cells(samples[i].labels, samples[j].labels, modifier);
}

/// The row that a sample falls into.
proof fn lemma_row_of<C: Fn(BinOp, u64, u64) -> u64, W: Fn(i128) -> u64>(
    ar: Arithmetic<C, W>,
    samples: Seq<PointView>,
    rows: Seq<GroupRow>,
    op: AggOp,
    modifier: Option<&Grouping>,
    i: int,
) -> (j: int)
    requires
        answered(ar, samples, rows, op, modifier),
        0 <= i < samples.len(),
    ensures
        0 <= j < rows.len(),
        rows[j].ts_us == samples[i].ts_us,
        row_group(rows[j], modifier) == retained(samples[i].labels, modifier),
{
    let keys = group_keys(modifier);
    let p = samples[i];
    let j = choose|j: int|
        0 <= j < rows.len() && falls_into(samples[i], #[trigger] rows[j], keys);
    assert(falls_into(p, rows[j], keys));
    lemma_row_labels(p.labels, rows[j], modifier);
    j
}

proof fn lemma_group_values(rows: Seq<GroupRow>, keys: Seq<Seq<char>>)
    requires
        forall|j: int| 0 <= j < rows.len() ==> (#[trigger] rows[j]).value is Some,
    ensures
        group_values(rows, keys) == rows.map_values(
            |r: GroupRow| (group_labels(keys, r.labels@), (r.ts_us, r.value->0)),
        ),
    decreases rows.len(),
{
    let f = |r: GroupRow| (group_labels(keys, r.labels@), (r.ts_us, r.value->0));
    if rows.len() > 0 {
        let rest = rows.drop_last();
        assert forall|j: int| 0 <= j < rest.len() implies (#[trigger] rest[j]).value is Some by {
            assert(rest[j] == rows[j]);
        }
        lemma_group_values(rest, keys);
        assert(rows[rows.len() - 1].value is Some);
        assert(group_values(rows, keys) =~= rows.map_values(f));
    } else {
        assert(group_values(rows, keys) =~= rows.map_values(f));
    }
}

/// The rows' values, group by group.
proof fn lemma_row_input<C: Fn(BinOp, u64, u64) -> u64, W: Fn(i128) -> u64>(
    ar: Arithmetic<C, W>,
    samples: Seq<PointView>,
    rows: Seq<GroupRow>,
    op: AggOp,
    modifier: Option<&Grouping>,
)
    requires
        answered(ar, samples, rows, op, modifier),
    ensures
        group_values(rows, group_keys(modifier)).len() == rows.len(),
        forall|j: int|
            0 <= j < rows.len() ==> #[trigger] group_values(rows, group_keys(modifier))[j] == (
                row_group(rows[j], modifier),
                (rows[j].ts_us, rows[j].value->0),
            ),
{
    assert forall|j: int| 0 <= j < rows.len() implies (#[trigger] rows[j]).value is Some by {
        lemma_row(ar, samples, rows, op, modifier, j);
    }
    lemma_group_values(rows, group_keys(modifier));
}

/// The rows have the groups of the points.
proof fn lemma_row_groups<C: Fn(BinOp, u64, u64) -> u64, W: Fn(i128) -> u64>(
    ar: Arithmetic<C, W>,
    samples: Seq<PointView>,
    rows: Seq<GroupRow>,
    op: AggOp,
    modifier: Option<&Grouping>,
)
    requires
        answered(ar, samples, rows, op, modifier),
        tells_groups_apart(samples, modifier),
    ensures
        keys_of::<Labels, (i64, u64)>(group_values(rows, group_keys(modifier))) == keys_of::<
            Labels,
            RangeView,
        >(series_by_group(series_of(samples), modifier)),
{
    let input = group_values(rows, group_keys(modifier));
    let other = series_by_group(series_of(samples), modifier);
    let keys = keys_of::<Labels, RangeView>(other);
    lemma_keys_of_exists::<Labels, RangeView>(other);
    lemma_row_input(ar, samples, rows, op, modifier);
    assert forall|n: int| 0 <= n < keys.len() implies has_key(input, #[trigger] keys[n]) by {
        lemma_point_groups(samples, modifier, keys[n]);
        let i = choose|i: int|
            0 <= i < samples.len() && retained((#[trigger] samples[i]).labels, modifier) == keys[n];
        let j = lemma_row_of(ar, samples, rows, op, modifier, i);
        assert(input[j].0 == keys[n]);
    }
    assert forall|j: int| 0 <= j < input.len() implies keys.contains((#[trigger] input[j]).0) by {
        lemma_row(ar, samples, rows, op, modifier, j);
        let g = row_group(rows[j], modifier);
        let i = choose|i: int|
            0 <= i < samples.len() && retained((#[trigger] samples[i]).labels, modifier) == g;
        lemma_point_groups(samples, modifier, g);
        let w = choose|w: int| 0 <= w < other.len() && (#[trigger] other[w]).0 == g;
        assert(keys.contains(other[w].0));
    }
    lemma_keys_of::<Labels, (i64, u64)>(input, keys);
}

/// A group's rows come at different instants, the earlier one first.
proof fn lemma_rows_by_time<C: Fn(BinOp, u64, u64) -> u64, W: Fn(i128) -> u64>(
    ar: Arithmetic<C, W>,
    samples: Seq<PointView>,
    rows: Seq<GroupRow>,
    op: AggOp,
    modifier: Option<&Grouping>,
    g: Pairs,
    a: int,
    b: int,
)
    requires
        answered(ar, samples, rows, op, modifier),
        0 <= a < b < items_under(group_values(rows, group_keys(modifier)), g).len(),
    ensures
        items_under(group_values(rows, group_keys(modifier)), g)[a].0 < items_under(
            group_values(rows, group_keys(modifier)),
            g,
        )[b].0,
{
    let input = group_values(rows, group_keys(modifier));
    let points = items_under(input, g);
    lemma_row_input(ar, samples, rows, op, modifier);
    lemma_items_in_order(input, g, a, b);
    let (i, j) = choose|i: int, j: int|
        0 <= i < j < input.len() && #[trigger] input[i] == (g, points[a]) && #[trigger] input[j]
            == (g, points[b]);
    lemma_same_cells(ar, samples, rows, op, modifier, i, j);
    assert(rows[i].ts_us < rows[j].ts_us);
}

/// The instants at which a group has rows are those at which it has points.
proof fn lemma_row_times<C: Fn(BinOp, u64, u64) -> u64, W: Fn(i128) -> u64>(
    ar: Arithmetic<C, W>,
    samples: Seq<PointView>,
    rows: Seq<GroupRow>,
    op: AggOp,
    modifier: Option<&Grouping>,
    g: Pairs,
)
    requires
        answered(ar, samples, rows, op, modifier),
        tells_groups_apart(samples, modifier),
    ensures
        keys_of::<i64, u64>(
            all_points(items_under(series_by_group(series_of(samples), modifier), g)),
        ) == items_under(group_values(rows, group_keys(modifier)), g).map_values(
            |p: (i64, u64)| p.0,
        ),
{
    let input = group_values(rows, group_keys(modifier));
    let points = items_under(input, g);
    let times = points.map_values(|p: (i64, u64)| p.0);
    let others = all_points(items_under(series_by_group(series_of(samples), modifier), g));
    let filed = by_group_and_time(samples, modifier);
    lemma_row_input(ar, samples, rows, op, modifier);
    assert forall|a: int, b: int| 0 <= a < b < times.len() implies #[trigger] times[a]
        < #[trigger] times[b] by {
        lemma_rows_by_time(ar, samples, rows, op, modifier, g, a, b);
    }
    assert forall|a: int| 0 <= a < times.len() implies has_key(others, #[trigger] times[a]) by {
        lemma_item_comes_from(input, g, a);
        let j = choose|j: int| 0 <= j < input.len() && #[trigger] input[j] == (g, points[a]);
        lemma_row(ar, samples, rows, op, modifier, j);
        lemma_point_values(samples, modifier, g, times[a]);
    }
    assert forall|n: int| 0 <= n < others.len() implies times.contains((#[trigger] others[n]).0) by {
        let t = others[n].0;
        assert(has_key(others, t));
        lemma_point_values(samples, modifier, g, t);
        lemma_item_comes_from(filed, (g, t), 0);
        let i = choose|i: int|
            0 <= i < filed.len() && #[trigger] filed[i] == ((g, t), items_under(filed, (g, t))[0]);
        let j = lemma_row_of(ar, samples, rows, op, modifier, i);
        assert(input[j].0 == g);
        lemma_item_is_under(input, j);
        let w = choose|w: int| 0 <= w < points.len() && points[w] == input[j].1;
        assert(times[w] == t);
    }
    lemma_keys_of::<i64, u64>(others, times);
}

proof fn lemma_all_have_points(series: Seq<RangeView>)
    requires
        forall|i: int| 0 <= i < series.len() ==> (#[trigger] series[i]).points.len() > 0,
    ensures
        with_points(series) == series,
    decreases series.len(),
{
    if series.len() > 0 {
        let rest = series.drop_last();
        assert forall|i: int| 0 <= i < rest.len() implies (#[trigger] rest[i]).points.len() > 0 by {
            assert(rest[i] == series[i]);
        }
        lemma_all_have_points(rest);
        assert(series[series.len() - 1].points.len() > 0);
    }
    assert(with_points(series) =~= series);
}

proof fn lemma_no_row_matchers(m: Seq<MatcherView>)
    requires
        forall|i: int| 0 <= i < m.len() ==> (#[trigger] m[i]).op is Equal || m[i].op is NotEqual,
    ensures
        row_matchers(m) == Seq::<MatcherView>::empty(),
    decreases m.len(),
{
    if m.len() > 0 {
        let rest = m.drop_last();
        assert forall|i: int| 0 <= i < rest.len() implies (#[trigger] rest[i]).op is Equal
            || rest[i].op is NotEqual by {
            assert(rest[i] == m[i]);
        }
        lemma_no_row_matchers(rest);
        assert(m[m.len() - 1].op is Equal || m[m.len() - 1].op is NotEqual);
    }
}

/// Every row meets matchers that SQL has checked.
proof fn lemma_all_kept(samples: Seq<PointView>, sel: SelectorView)
    requires
        has_plain_matchers(sel),
    ensures
        kept_rows(samples, sel) == samples,
{
    lemma_no_row_matchers(sel.matchers);
    lemma_filter_keeps(
        samples,
        |p: PointView| meets_all(p.metric_name, p.labels, row_matchers(sel.matchers)),
    );
}

/// The `n`th series of either aggregation has the same labels, and points at the
/// same instants.
proof fn lemma_same_series<C: Fn(BinOp, u64, u64) -> u64, W: Fn(i128) -> u64>(
    ar: Arithmetic<C, W>,
    samples: Seq<PointView>,
    rows: Seq<GroupRow>,
    op: AggOp,
    modifier: Option<&Grouping>,
    n: int,
)
    requires
        answered(ar, samples, rows, op, modifier),
        tells_groups_apart(samples, modifier),
        0 <= n < aggregate_series(rows, group_keys(modifier)).len(),
    ensures
        ({
            let a = aggregate_series(rows, group_keys(modifier))[n];
            let input = series_by_group(series_of(samples), modifier);
            let g = keys_of::<Labels, RangeView>(input)[n];
            let points = reduced_by_time(ar, op, all_points(items_under(input, g)));
            &&& a.labels == g
            &&& a.points.len() == points.len()
            &&& a.points.len() > 0
            &&& forall|i: int, j: int|
                0 <= i < j < a.points.len() ==> (#[trigger] a.points[i]).0 < (
                #[trigger] a.points[j]).0
            &&& forall|j: int|
                0 <= j < a.points.len() ==> {
                    let values = items_under(
                        by_group_and_time(samples, modifier),
                        (g, (#[trigger] a.points[j]).0),
                    );
                    &&& points[j].0 == a.points[j].0
                    &&& values.len() > 0
                    &&& is_aggregate(ar, op, values, a.points[j].1)
                    &&& is_aggregate(ar, op, values, points[j].1)
                }
        }),
{
    let input = group_values(rows, group_keys(modifier));
    let groups = keys_of::<Labels, (i64, u64)>(input);
    let g = groups[n];
    let a = aggregate_series(rows, group_keys(modifier))[n];
    let others = all_points(items_under(series_by_group(series_of(samples), modifier), g));
    let points = reduced_by_time(ar, op, others);
    lemma_row_input(ar, samples, rows, op, modifier);
    lemma_row_groups(ar, samples, rows, op, modifier);
    lemma_row_times(ar, samples, rows, op, modifier, g);
    lemma_keys_of_exists::<Labels, (i64, u64)>(input);
    assert(has_key(input, groups[n]));
    lemma_items_under_empty(input, g);
    assert forall|i: int, j: int| 0 <= i < j < a.points.len() implies (#[trigger] a.points[i]).0 < (
    #[trigger] a.points[j]).0 by {
        lemma_rows_by_time(ar, samples, rows, op, modifier, g, i, j);
    }
    assert forall|j: int| 0 <= j < a.points.len() implies {
        let values = items_under(
            by_group_and_time(samples, modifier),
            (g, (#[trigger] a.points[j]).0),
        );
        &&& points[j].0 == a.points[j].0
        &&& values.len() > 0
        &&& is_aggregate(ar, op, values, a.points[j].1)
        &&& is_aggregate(ar, op, values, points[j].1)
    } by {
        let t = a.points[j].0;
        lemma_item_comes_from(input, g, j);
        let r = choose|r: int| 0 <= r < input.len() && #[trigger] input[r] == (g, a.points[j]);
        lemma_row(ar, samples, rows, op, modifier, r);
        lemma_point_values(samples, modifier, g, t);
        assert(points[j].1 == reduced(ar, op, items_under(others, t)));
    }
}

/// A range aggregation that SQL computes is the aggregation of the points that
/// the selector gives, up to the order in which a group's values are aggregated:
/// the same groups in the same order, without names, with a point at each instant
/// at which the group has samples, by ascending time. Where the aggregate does not
/// depend on that order, the two are equal.
///
/// `samples` are the rows that the selector's statement returns, and `rows` those
/// of the aggregating statement, which has the same `WHERE` clause.
pub proof fn law_sql_aggregates_as_points_do<C: Fn(BinOp, u64, u64) -> u64, W: Fn(i128) -> u64>(
    ar: Arithmetic<C, W>,
    sel: SelectorView,
    samples: Seq<PointView>,
    rows: Seq<GroupRow>,
    op: AggOp,
    modifier: Option<&Grouping>,
)
    requires
        pushes_down(modifier),
        has_plain_matchers(sel),
        forall|i: int| 0 <= i < samples.len() ==> in_name_order((#[trigger] samples[i]).labels),
        tells_groups_apart(samples, modifier),
        answers_aggregate(ar, rows, samples, group_keys(modifier), op),
    ensures
        same_up_to_order(
            ar,
            op,
            samples,
            modifier,
            aggregate_series(rows, group_keys(modifier)),
            aggregated_series(ar, series_of(kept_rows(samples, sel)), op, modifier),
        ),
        order_free(ar, op) ==> aggregate_series(rows, group_keys(modifier)) == aggregated_series(
            ar,
            series_of(kept_rows(samples, sel)),
            op,
            modifier,
        ),
{
    let a = aggregate_series(rows, group_keys(modifier));
    let b = aggregated_series(ar, series_of(samples), op, modifier);
    let input = series_by_group(series_of(samples), modifier);
    let groups = keys_of::<Labels, RangeView>(input);
    let all = Seq::new(
        groups.len(),
        |i: int|
            RangeView {
                metric_name: Seq::empty(),
                labels: groups[i],
                points: reduced_by_time(ar, op, all_points(items_under(input, groups[i]))),
            },
    );
    lemma_all_kept(samples, sel);
    lemma_row_groups(ar, samples, rows, op, modifier);
    assert forall|n: int| 0 <= n < all.len() implies (#[trigger] all[n]).points.len() > 0 by {
        lemma_same_series(ar, samples, rows, op, modifier, n);
    }
    lemma_all_have_points(all);
    assert(b == all);
    assert forall|n: int| 0 <= n < a.len() implies {
        &&& (#[trigger] a[n]).metric_name == Seq::<char>::empty()
        &&& b[n].metric_name == Seq::<char>::empty()
        &&& a[n].labels == b[n].labels
        &&& a[n].points.len() == b[n].points.len()
        &&& rising(a[n].points)
    } by {
        lemma_same_series(ar, samples, rows, op, modifier, n);
    }
    assert forall|n: int, j: int| 0 <= n < a.len() && 0 <= j < a[n].points.len() implies {
        let (ts, v) = #[trigger] a[n].points[j];
        let values = items_under(by_group_and_time(samples, modifier), (a[n].labels, ts));
        &&& values.len() > 0
        &&& b[n].points[j].0 == ts
        &&& is_aggregate(ar, op, values, v)
        &&& is_aggregate(ar, op, values, b[n].points[j].1)
    } by {
        lemma_same_series(ar, samples, rows, op, modifier, n);
    }
    assert(same_up_to_order(ar, op, samples, modifier, a, b));
    if order_free(ar, op) {
        lemma_order_free(ar, op, samples, modifier, a, b);
    }
}

/// Where the order of the values does not matter, aggregations that are the same
/// up to it are equal.
proof fn lemma_order_free<C: Fn(BinOp, u64, u64) -> u64, W: Fn(i128) -> u64>(
    ar: Arithmetic<C, W>,
    op: AggOp,
    samples: Seq<PointView>,
    modifier: Option<&Grouping>,
    a: Seq<RangeView>,
    b: Seq<RangeView>,
)
    requires
        order_free(ar, op),
        same_up_to_order(ar, op, samples, modifier, a, b),
    ensures
        a == b,
{
    assert forall|n: int| 0 <= n < a.len() implies #[trigger] a[n] == b[n] by {
        assert forall|j: int| 0 <= j < a[n].points.len() implies #[trigger] a[n].points[j]
            == b[n].points[j] by {
            let (ts, v) = a[n].points[j];
            let values = items_under(by_group_and_time(samples, modifier), (a[n].labels, ts));
            lemma_one_aggregate(ar, op, values, v, b[n].points[j].1);
        }
        assert(a[n].points =~= b[n].points);
    }
    assert(a =~= b);
}

// ---------- instants ----------

/// The points, all at one instant.
pub open spec fn at(points: Seq<PointView>, time_us: i64) -> Seq<PointView> {
    points.map_values(
        |p: PointView|
            PointView {
                metric_name: p.metric_name,
                labels: p.labels,
                ts_us: time_us,
                value: p.value,
            },
    )
}

/// Whether `picked` are the latest samples, one of each series, in whichever order
/// and whichever of those that share a series' latest timestamp.
pub open spec fn picks_latest(samples: Seq<PointView>, picked: Seq<PointView>) -> bool {
    &&& forall|i: int| 0 <= i < picked.len() ==> samples.contains(#[trigger] picked[i])
    &&& forall|i: int, j: int|
        0 <= i < samples.len() && 0 <= j < picked.len() && same_series(
            #[trigger] samples[i],
            #[trigger] picked[j],
        ) ==> samples[i].ts_us <= picked[j].ts_us
    &&& forall|i: int| 0 <= i < samples.len() ==> has_its_series(picked, #[trigger] samples[i])
    &&& forall|i: int, j: int|
        0 <= i < j < picked.len() ==> !same_series(#[trigger] picked[i], #[trigger] picked[j])
}

/// Whether one of some samples is of the series of another.
pub open spec fn has_its_series(picked: Seq<PointView>, p: PointView) -> bool {
    exists|j: int| 0 <= j < picked.len() && same_series(p, #[trigger] picked[j])
}

/// Whether two samples are of one series.
pub open spec fn same_series(a: PointView, b: PointView) -> bool {
    key_text(a.metric_name, a.labels) == key_text(b.metric_name, b.labels)
}

/// Whether no series has two different samples of one instant.
pub open spec fn one_at_a_time(samples: Seq<PointView>) -> bool {
    forall|i: int, j: int|
        0 <= i < samples.len() && 0 <= j < samples.len() && same_series(
            #[trigger] samples[i],
            #[trigger] samples[j],
        ) && samples[i].ts_us == samples[j].ts_us ==> samples[i] == samples[j]
}

/// Whether rows are what an aggregating statement at an instant is meant to return
/// of these points. Without retained labels the statement has no `GROUP BY` clause,
/// and returns one row even of no points: a count of zero, or no aggregate.
pub open spec fn answers_instant<C: Fn(BinOp, u64, u64) -> u64, W: Fn(i128) -> u64>(
    ar: Arithmetic<C, W>,
    rows: Seq<GroupRow>,
    points: Seq<PointView>,
    keys: Seq<Seq<char>>,
    op: AggOp,
    time_us: i64,
) -> bool {
    if keys.len() == 0 && points.len() == 0 {
        &&& rows_fit(rows, keys)
        &&& rows.len() == 1
        &&& rows[0].ts_us == time_us
        &&& rows[0].value == if op is Count {
            Some(reduced(ar, op, Seq::empty()))
        } else {
            None
        }
    } else {
        answers_aggregate(ar, rows, at(points, time_us), keys, op)
    }
}

/// The values of a group's points.
pub open spec fn group_of(points: Seq<PointView>, modifier: Option<&Grouping>, g: Pairs) -> Seq<
    u64,
> {
    values_of(items_under(points_by_group(points, modifier), g))
}

/// Whether two points are the same but for the order in which the group's values
/// were aggregated.
pub open spec fn same_point<C: Fn(BinOp, u64, u64) -> u64, W: Fn(i128) -> u64>(
    ar: Arithmetic<C, W>,
    op: AggOp,
    values: Seq<u64>,
    a: PointView,
    b: PointView,
) -> bool {
    &&& a.metric_name == b.metric_name
    &&& a.labels == b.labels
    &&& a.ts_us == b.ts_us
    &&& is_aggregate(ar, op, values, a.value)
    &&& is_aggregate(ar, op, values, b.value)
}

/// Whether one of some points is the same as a given one.
pub open spec fn has_counterpart<C: Fn(BinOp, u64, u64) -> u64, W: Fn(i128) -> u64>(
    ar: Arithmetic<C, W>,
    op: AggOp,
    values: Seq<u64>,
    p: PointView,
    others: Seq<PointView>,
) -> bool {
    exists|n: int| 0 <= n < others.len() && same_point(ar, op, values, p, #[trigger] others[n])
}

/// Whether one of some points has the labels.
pub open spec fn has_labels(points: Seq<PointView>, labels: Pairs) -> bool {
    exists|i: int| 0 <= i < points.len() && (#[trigger] points[i]).labels == labels
}

/// Whether two lists of aggregates are the same up to the order of the list and
/// the order in which a group's values were aggregated: one point of each group in
/// either.
pub open spec fn same_points<C: Fn(BinOp, u64, u64) -> u64, W: Fn(i128) -> u64>(
    ar: Arithmetic<C, W>,
    op: AggOp,
    points: Seq<PointView>,
    modifier: Option<&Grouping>,
    a: Seq<PointView>,
    b: Seq<PointView>,
) -> bool {
    &&& a.len() == b.len()
    &&& forall|i: int|
        0 <= i < a.len() ==> has_counterpart(
            ar,
            op,
            group_of(points, modifier, a[i].labels),
            #[trigger] a[i],
            b,
        )
    &&& forall|n: int| 0 <= n < b.len() ==> has_labels(a, (#[trigger] b[n]).labels)
    &&& forall|i: int, j: int|
        0 <= i < j < a.len() ==> (#[trigger] a[i]).labels != (#[trigger] a[j]).labels
    &&& forall|i: int, j: int|
        0 <= i < j < b.len() ==> (#[trigger] b[i]).labels != (#[trigger] b[j]).labels
}

/// A latest sample is a sample, and none of its series is later.
pub proof fn lemma_latest_of(samples: Seq<PointView>, n: int)
    requires
        0 <= n < latest_of(samples).len(),
    ensures
        samples.contains(latest_of(samples)[n]),
        key_text(latest_of(samples)[n].metric_name, latest_of(samples)[n].labels) == keys_of::<
            String,
            PointView,
        >(by_series(samples))[n],
        forall|i: int|
            0 <= i < samples.len() && same_series(#[trigger] samples[i], latest_of(samples)[n])
                ==> samples[i].ts_us <= latest_of(samples)[n].ts_us,
{
    let input = by_series(samples);
    let keys = keys_of::<String, PointView>(input);
    let rows = items_under(input, keys[n]);
    let p = latest_of(samples)[n];
    lemma_keys_of_exists::<String, PointView>(input);
    assert(has_key(input, keys[n]));
    lemma_items_under_empty(input, keys[n]);
    law_latest(rows);
    let w = choose|w: int| 0 <= w < rows.len() && rows[w] == p;
    lemma_item_comes_from(input, keys[n], w);
    let i = choose|i: int| 0 <= i < input.len() && #[trigger] input[i] == (keys[n], rows[w]);
    assert(samples[i] == p);
    assert forall|i: int| 0 <= i < samples.len() && same_series(#[trigger] samples[i], p) implies
        samples[i].ts_us <= p.ts_us by {
        assert(input[i] == (keys[n], samples[i]));
        lemma_item_is_under(input, i);
        let v = choose|v: int| 0 <= v < rows.len() && rows[v] == samples[i];
        assert(rows[v].ts_us <= p.ts_us);
    }
}

/// Where no series has two samples of one instant, the latest samples are fixed
/// but for their order.
proof fn lemma_picked(samples: Seq<PointView>, picked: Seq<PointView>)
    requires
        picks_latest(samples, picked),
        one_at_a_time(samples),
    ensures
        picked.to_multiset() == latest_of(samples).to_multiset(),
{
    let input = by_series(samples);
    let keys = keys_of::<String, PointView>(input);
    let last = latest_of(samples);
    lemma_keys_of_exists::<String, PointView>(input);
    lemma_increasing_distinct(keys);
    assert forall|n: int| 0 <= n < last.len() implies picked.contains(#[trigger] last[n]) by {
        lemma_latest_of(samples, n);
        let i = choose|i: int| 0 <= i < samples.len() && samples[i] == last[n];
        assert(has_its_series(picked, samples[i]));
        let j = choose|j: int|
            0 <= j < picked.len() && same_series(samples[i], #[trigger] picked[j]);
        assert(samples.contains(picked[j]));
        let k = choose|k: int| 0 <= k < samples.len() && samples[k] == picked[j];
        assert(same_series(samples[k], last[n]));
        assert(same_series(samples[i], picked[j]));
        assert(samples[i] == samples[k]);
    }
    assert forall|j: int| 0 <= j < picked.len() implies last.contains(#[trigger] picked[j]) by {
        assert(samples.contains(picked[j]));
        let k = choose|k: int| 0 <= k < samples.len() && samples[k] == picked[j];
        assert(keys.contains(input[k].0));
        let n = choose|n: int| 0 <= n < keys.len() && keys[n] == input[k].0;
        lemma_latest_of(samples, n);
        let i = choose|i: int| 0 <= i < samples.len() && samples[i] == last[n];
        assert(same_series(samples[k], last[n]));
        assert(same_series(samples[i], picked[j]));
        assert(same_series(samples[i], samples[k]));
        assert(last[n] == picked[j]);
    }
    assert forall|m: int, n: int| 0 <= m < last.len() && 0 <= n < last.len() && m != n implies last[m]
        != last[n] by {
        lemma_latest_of(samples, m);
        lemma_latest_of(samples, n);
    }
    assert forall|i: int, j: int|
        0 <= i < picked.len() && 0 <= j < picked.len() && i != j implies picked[i] != picked[j] by {
        if i < j {
            assert(!same_series(picked[i], picked[j]));
        } else {
            assert(!same_series(picked[j], picked[i]));
        }
    }
    lemma_same_items(picked, last);
}

/// A group's values are those filed under it and the instant.
proof fn lemma_group_of(
    points: Seq<PointView>,
    modifier: Option<&Grouping>,
    g: Pairs,
    time_us: i64,
)
    ensures
        group_of(points, modifier, g) == items_under(
            by_group_and_time(at(points, time_us), modifier),
            (g, time_us),
        ),
    decreases points.len(),
{
    let input = points_by_group(points, modifier);
    let filed = by_group_and_time(at(points, time_us), modifier);
    if points.len() > 0 {
        let rest = points.drop_last();
        lemma_group_of(rest, modifier, g, time_us);
        assert(input.drop_last() =~= points_by_group(rest, modifier));
        assert(filed.drop_last() =~= by_group_and_time(at(rest, time_us), modifier));
    }
    assert(group_of(points, modifier, g) =~= items_under(filed, (g, time_us)));
}

/// A group has the same values among the latest samples, in whichever order they
/// come.
proof fn lemma_group_permuted(
    a: Seq<PointView>,
    b: Seq<PointView>,
    modifier: Option<&Grouping>,
    g: Pairs,
)
    requires
        a.to_multiset() == b.to_multiset(),
    ensures
        group_of(a, modifier, g).to_multiset() == group_of(b, modifier, g).to_multiset(),
        has_key(points_by_group(a, modifier), g) <==> has_key(points_by_group(b, modifier), g),
{
    let f = |p: PointView| (retained(p.labels, modifier), p);
    lemma_mapped_permutes(a, b, f);
    assert(points_by_group(a, modifier) =~= a.map_values(f));
    assert(points_by_group(b, modifier) =~= b.map_values(f));
    lemma_under_permuted(a.map_values(f), b.map_values(f), g);
    lemma_mapped_permutes(
        items_under(a.map_values(f), g),
        items_under(b.map_values(f), g),
        |p: PointView| p.value,
    );
    lemma_items_under_empty(a.map_values(f), g);
    lemma_items_under_empty(b.map_values(f), g);
}

/// What a row of the statement at an instant gives.
proof fn lemma_instant_row<C: Fn(BinOp, u64, u64) -> u64, W: Fn(i128) -> u64>(
    ar: Arithmetic<C, W>,
    points: Seq<PointView>,
    rows: Seq<GroupRow>,
    op: AggOp,
    modifier: Option<&Grouping>,
    time_us: i64,
    j: int,
)
    requires
        answered(ar, at(points, time_us), rows, op, modifier),
        0 <= j < rows.len(),
    ensures
        aggregate_points(rows, group_keys(modifier)).len() == rows.len(),
        ({
            let p = aggregate_points(rows, group_keys(modifier))[j];
            &&& p.metric_name == Seq::<char>::empty()
            &&& p.labels == row_group(rows[j], modifier)
            &&& p.ts_us == time_us
            &&& rows[j].ts_us == time_us
            &&& is_aggregate(ar, op, group_of(points, modifier, p.labels), p.value)
            &&& has_key(points_by_group(points, modifier), p.labels)
        }),
{
    let samples = at(points, time_us);
    let g = row_group(rows[j], modifier);
    let filed = by_group_and_time(samples, modifier);
    lemma_row_input(ar, samples, rows, op, modifier);
    lemma_row(ar, samples, rows, op, modifier, j);
    let key = (g, rows[j].ts_us);
    lemma_item_comes_from(filed, key, 0);
    let i = choose|i: int|
        0 <= i < filed.len() && #[trigger] filed[i] == (key, items_under(filed, key)[0]);
    assert(samples[i].ts_us == time_us);
    assert(points_by_group(points, modifier)[i].0 == g);
    lemma_group_of(points, modifier, g, time_us);
}

/// An aggregation at an instant that SQL computes is the aggregation of the points
/// that the selector gives, up to the order of the groups and the order in which a
/// group's values are aggregated: without names, at the instant asked for, one
/// point of each group. Where the aggregate does not depend on that order, the
/// points are the same but for their order.
///
/// `samples` are the rows that the selector's statement returns, `picked` the
/// latest of each series, and `rows` those of the aggregating statement, which has
/// the same `WHERE` clause. An ungrouped count of nothing is left out: SQL gives
/// zero where there are no points to count.
pub proof fn law_sql_aggregates_an_instant_as_points_do<C: Fn(BinOp, u64, u64) -> u64, W: Fn(i128) -> u64>(
    ar: Arithmetic<C, W>,
    sel: SelectorView,
    samples: Seq<PointView>,
    picked: Seq<PointView>,
    rows: Seq<GroupRow>,
    op: AggOp,
    modifier: Option<&Grouping>,
    time_us: i64,
)
    requires
        pushes_down(modifier),
        has_plain_matchers(sel),
        forall|i: int| 0 <= i < samples.len() ==> in_name_order((#[trigger] samples[i]).labels),
        one_at_a_time(samples),
        picks_latest(samples, picked),
        answers_instant(ar, rows, picked, group_keys(modifier), op, time_us),
        !(op is Count && group_keys(modifier).len() == 0 && samples.len() == 0),
    ensures
        same_points(
            ar,
            op,
            picked,
            modifier,
            aggregate_points(rows, group_keys(modifier)),
            aggregated(ar, latest_of(kept_rows(samples, sel)), op, modifier, time_us),
        ),
        order_free(ar, op) ==> aggregate_points(rows, group_keys(modifier)).to_multiset()
            == aggregated(
            ar,
            latest_of(kept_rows(samples, sel)),
            op,
            modifier,
            time_us,
        ).to_multiset(),
{
    let keys = group_keys(modifier);
    let last = latest_of(samples);
    let a = aggregate_points(rows, keys);
    let b = aggregated(ar, last, op, modifier, time_us);
    lemma_all_kept(samples, sel);
    lemma_picked(samples, picked);
    if keys.len() == 0 && picked.len() == 0 {
        if samples.len() > 0 {
            assert(has_its_series(picked, samples[0]));
            let j = choose|j: int|
                0 <= j < picked.len() && same_series(samples[0], #[trigger] picked[j]);
            assert(false);
        }
        lemma_nothing_aggregated(ar, last, picked, op, modifier, time_us);
        reveal_with_fuel(group_values, 2);
        assert(group_values(rows, keys) =~= Seq::empty());
        assert(a =~= b);
    } else {
        assert forall|i: int| 0 <= i < at(picked, time_us).len() implies in_name_order(
            (#[trigger] at(picked, time_us)[i]).labels,
        ) by {
            assert(samples.contains(picked[i]));
            let k = choose|k: int| 0 <= k < samples.len() && samples[k] == picked[i];
            assert(in_name_order(samples[k].labels));
        }
        lemma_instants_match(ar, last, picked, rows, op, modifier, time_us);
        if order_free(ar, op) {
            lemma_instants_order_free(ar, op, picked, modifier, a, b);
        }
    }
}

proof fn lemma_nothing_aggregated<C: Fn(BinOp, u64, u64) -> u64, W: Fn(i128) -> u64>(
    ar: Arithmetic<C, W>,
    last: Seq<PointView>,
    picked: Seq<PointView>,
    op: AggOp,
    modifier: Option<&Grouping>,
    time_us: i64,
)
    requires
        last.to_multiset() == picked.to_multiset(),
        picked.len() == 0,
    ensures
        aggregated(ar, last, op, modifier, time_us) == Seq::<PointView>::empty(),
{
    broadcast use group_to_multiset_ensures;

    assert(last.len() == last.to_multiset().len());
    assert(picked.len() == picked.to_multiset().len());
    let input = points_by_group(last, modifier);
    let groups = keys_of::<Labels, PointView>(input);
    lemma_keys_of_exists::<Labels, PointView>(input);
    if groups.len() > 0 {
        assert(has_key(input, groups[0]));
    }
    assert(aggregated(ar, last, op, modifier, time_us) =~= Seq::<PointView>::empty());
}

proof fn lemma_distinct_labels(keys: Seq<Pairs>)
    requires
        increasing::<Labels>(keys),
    ensures
        forall|i: int, j: int| 0 <= i < j < keys.len() ==> #[trigger] keys[i] != #[trigger] keys[j],
{
    assert forall|i: int, j: int| 0 <= i < j < keys.len() implies #[trigger] keys[i]
        != #[trigger] keys[j] by {
        assert(<Labels as SortKey>::before(keys[i], keys[j]));
        <Labels as SortKey>::irreflexive(keys[i]);
    }
}

proof fn lemma_instants_match<C: Fn(BinOp, u64, u64) -> u64, W: Fn(i128) -> u64>(
    ar: Arithmetic<C, W>,
    last: Seq<PointView>,
    picked: Seq<PointView>,
    rows: Seq<GroupRow>,
    op: AggOp,
    modifier: Option<&Grouping>,
    time_us: i64,
)
    requires
        picked.to_multiset() == last.to_multiset(),
        answered(ar, at(picked, time_us), rows, op, modifier),
    ensures
        same_points(
            ar,
            op,
            picked,
            modifier,
            aggregate_points(rows, group_keys(modifier)),
            aggregated(ar, last, op, modifier, time_us),
        ),
{
    let a = aggregate_points(rows, group_keys(modifier));
    let b = aggregated(ar, last, op, modifier, time_us);
    let samples = at(picked, time_us);
    let input = points_by_group(last, modifier);
    let groups = keys_of::<Labels, PointView>(input);
    lemma_row_input(ar, samples, rows, op, modifier);
    lemma_keys_of_exists::<Labels, PointView>(input);
    lemma_distinct_labels(groups);
    assert forall|i: int| 0 <= i < a.len() implies has_counterpart(
        ar,
        op,
        group_of(picked, modifier, a[i].labels),
        #[trigger] a[i],
        b,
    ) by {
        lemma_instant_row(ar, picked, rows, op, modifier, time_us, i);
        let g = a[i].labels;
        lemma_group_permuted(picked, last, modifier, g);
        let w = choose|w: int| 0 <= w < input.len() && (#[trigger] input[w]).0 == g;
        assert(groups.contains(input[w].0));
        let n = choose|n: int| 0 <= n < groups.len() && groups[n] == g;
        assert(b[n].value == reduced(ar, op, group_of(last, modifier, g)));
        assert(same_point(ar, op, group_of(picked, modifier, g), a[i], b[n]));
    }
    assert forall|n: int| 0 <= n < b.len() implies has_labels(a, (#[trigger] b[n]).labels) by {
        let g = groups[n];
        assert(has_key(input, groups[n]));
        lemma_group_permuted(picked, last, modifier, g);
        let filed = points_by_group(picked, modifier);
        let k = choose|k: int| 0 <= k < filed.len() && (#[trigger] filed[k]).0 == g;
        let j = lemma_row_of(ar, samples, rows, op, modifier, k);
        lemma_instant_row(ar, picked, rows, op, modifier, time_us, j);
        assert(a[j].labels == b[n].labels);
    }
    assert forall|i: int, j: int| 0 <= i < j < a.len() implies (#[trigger] a[i]).labels != (
    #[trigger] a[j]).labels by {
        lemma_instant_row(ar, picked, rows, op, modifier, time_us, i);
        lemma_instant_row(ar, picked, rows, op, modifier, time_us, j);
        if a[i].labels == a[j].labels {
            lemma_same_cells(ar, samples, rows, op, modifier, i, j);
            assert(rows[i].ts_us < rows[j].ts_us);
        }
    }
    assert forall|i: int, j: int| 0 <= i < j < b.len() implies (#[trigger] b[i]).labels != (
    #[trigger] b[j]).labels by {
        assert(groups[i] != groups[j]);
    }
    let f = |p: PointView| p.labels;
    let la = a.map_values(f);
    let lb = b.map_values(f);
    assert forall|i: int| 0 <= i < la.len() implies lb.contains(#[trigger] la[i]) by {
        assert(has_counterpart(ar, op, group_of(picked, modifier, a[i].labels), a[i], b));
        let n = choose|n: int|
            0 <= n < b.len() && same_point(
                ar,
                op,
                group_of(picked, modifier, a[i].labels),
                a[i],
                #[trigger] b[n],
            );
        assert(lb[n] == la[i]);
    }
    assert forall|n: int| 0 <= n < lb.len() implies la.contains(#[trigger] lb[n]) by {
        assert(has_labels(a, b[n].labels));
        let i = choose|i: int| 0 <= i < a.len() && (#[trigger] a[i]).labels == b[n].labels;
        assert(la[i] == lb[n]);
    }
    lemma_distinct(la);
    lemma_distinct(lb);
    lemma_same_items(la, lb);
}

/// Where the order of the values does not matter, points that are the same up to
/// it are permutations of each other.
proof fn lemma_instants_order_free<C: Fn(BinOp, u64, u64) -> u64, W: Fn(i128) -> u64>(
    ar: Arithmetic<C, W>,
    op: AggOp,
    points: Seq<PointView>,
    modifier: Option<&Grouping>,
    a: Seq<PointView>,
    b: Seq<PointView>,
)
    requires
        order_free(ar, op),
        same_points(ar, op, points, modifier, a, b),
    ensures
        a.to_multiset() == b.to_multiset(),
{
    assert forall|i: int| 0 <= i < a.len() implies b.contains(#[trigger] a[i]) by {
        let values = group_of(points, modifier, a[i].labels);
        let n = choose|n: int|
            0 <= n < b.len() && same_point(ar, op, values, a[i], #[trigger] b[n]);
        lemma_one_aggregate(ar, op, values, a[i].value, b[n].value);
        assert(b[n] == a[i]);
    }
    assert forall|n: int| 0 <= n < b.len() implies a.contains(#[trigger] b[n]) by {
        let i = choose|i: int| 0 <= i < a.len() && (#[trigger] a[i]).labels == b[n].labels;
        assert(b.contains(a[i]));
        let m = choose|m: int| 0 <= m < b.len() && b[m] == a[i];
        assert(m == n);
    }
    lemma_distinct(a);
    lemma_distinct(b);
    lemma_same_items(a, b);
}

/// Where the order of the values does not matter, they have one aggregate.
proof fn lemma_one_aggregate<C: Fn(BinOp, u64, u64) -> u64, W: Fn(i128) -> u64>(
    ar: Arithmetic<C, W>,
    op: AggOp,
    values: Seq<u64>,
    v: u64,
    w: u64,
)
    requires
        order_free(ar, op),
        is_aggregate(ar, op, values, v),
        is_aggregate(ar, op, values, w),
    ensures
        v == w,
{
    let x = choose|x: Seq<u64>|
        x.to_multiset() == values.to_multiset() && v == #[trigger] reduced(ar, op, x);
    let y = choose|y: Seq<u64>|
        y.to_multiset() == values.to_multiset() && w == #[trigger] reduced(ar, op, y);
    assert(reduced(ar, op, x) == reduced(ar, op, y));
}

} // verus!
