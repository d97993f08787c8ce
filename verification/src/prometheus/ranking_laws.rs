//! What grouping and ranking do to points.

use vstd::prelude::*;
use crate::double::{is_nan_bits, less_bits};
use crate::labels::{
    in_name_order, lemma_named_ordered, lemma_pairs_unique, lookup, named, pairs_before, Labels,
    Pairs,
};
use crate::ordered::{
    flat, has_key, increasing, items_under, keys_of, lemma_item_comes_from, lemma_items_under_empty,
    lemma_items_under_join, lemma_keys_of_exists, lemma_stable_order_exists, stable_order, SortKey,
};
use crate::permutations::{lemma_mapped_permutes, lemma_same_under_every_key};
use crate::prometheus::aggregate::{points_by_group, retained};
use crate::prometheus::ast::Grouping;
use crate::prometheus::rows::PointView;
use crate::prometheus::topk::{chosen, rank, ranked, top_points, with_ranks};

verus! {

// ---------- groups ----------

/// Whether a grouping keeps a label: `by` keeps those it lists, `without` those it
/// does not, and no grouping keeps none.
pub open spec fn keeps(modifier: Option<&Grouping>, name: Seq<char>) -> bool {
    match modifier {
        None => false,
        Some(g) => match *g {
            Grouping::Include(names) => exists|i: int|
                0 <= i < names@.len() && (#[trigger] names@[i])@ == name,
            Grouping::Exclude(names) => !exists|i: int|
                0 <= i < names@.len() && (#[trigger] names@[i])@ == name,
        },
    }
}

proof fn lemma_lookup_picked(p: Pairs, names: Seq<Seq<char>>, keep: bool, n: Seq<char>)
    ensures
        lookup(named(p, names, keep), n) == if names.contains(n) == keep {
            lookup(p, n)
        } else {
            None
        },
    decreases p.len(),
{
    if p.len() > 0 {
        let rest = p.drop_last();
        lemma_lookup_picked(rest, names, keep, n);
        if names.contains(p.last().0) == keep {
            assert(named(p, names, keep).drop_last() =~= named(rest, names, keep));
        }
    }
}

/// The labels that a group is known by are those of its members that its grouping
/// keeps.
pub proof fn law_groups_are_known_by_what_is_kept(
    labels: Pairs,
    modifier: Option<&Grouping>,
    name: Seq<char>,
)
    ensures
        lookup(retained(labels, modifier), name) == if keeps(modifier, name) {
            lookup(labels, name)
        } else {
            None
        },
        in_name_order(labels) ==> in_name_order(retained(labels, modifier)),
{
    match modifier {
        None => {},
        Some(g) => match *g {
            Grouping::Include(names) => {
                let t = crate::text::texts(names@);
                assert(t.contains(name) == keeps(modifier, name)) by {
                    if keeps(modifier, name) {
                        let i = choose|i: int|
                            0 <= i < names@.len() && (#[trigger] names@[i])@ == name;
                        assert(t[i] == name);
                    }
                }
                lemma_lookup_picked(labels, t, true, name);
                if in_name_order(labels) {
                    lemma_named_ordered(labels, t, true);
                }
            },
            Grouping::Exclude(names) => {
                let t = crate::text::texts(names@);
                assert(t.contains(name) == !keeps(modifier, name)) by {
                    if !keeps(modifier, name) {
                        let i = choose|i: int|
                            0 <= i < names@.len() && (#[trigger] names@[i])@ == name;
                        assert(t[i] == name);
                    }
                }
                lemma_lookup_picked(labels, t, false, name);
                if in_name_order(labels) {
                    lemma_named_ordered(labels, t, false);
                }
            },
        },
    }
}

/// Two series are of one group exactly where they have the same values of every
/// label that the grouping keeps.
pub proof fn law_groups_share_what_is_kept(a: Pairs, b: Pairs, modifier: Option<&Grouping>)
    requires
        in_name_order(a),
        in_name_order(b),
    ensures
        retained(a, modifier) == retained(b, modifier) <==> (forall|name: Seq<char>|
            keeps(modifier, name) ==> #[trigger] lookup(a, name) == lookup(b, name)),
{
    let x = retained(a, modifier);
    let y = retained(b, modifier);
    if x == y {
        assert forall|name: Seq<char>| keeps(modifier, name) implies #[trigger] lookup(a, name)
            == lookup(b, name) by {
            law_groups_are_known_by_what_is_kept(a, modifier, name);
            law_groups_are_known_by_what_is_kept(b, modifier, name);
        }
    }
    if forall|name: Seq<char>|
        keeps(modifier, name) ==> #[trigger] lookup(a, name) == lookup(b, name) {
        assert forall|name: Seq<char>| #[trigger] lookup(x, name) == lookup(y, name) by {
            law_groups_are_known_by_what_is_kept(a, modifier, name);
            law_groups_are_known_by_what_is_kept(b, modifier, name);
            assert(keeps(modifier, name) ==> lookup(a, name) == lookup(b, name));
        }
        law_groups_are_known_by_what_is_kept(a, modifier, Seq::empty());
        law_groups_are_known_by_what_is_kept(b, modifier, Seq::empty());
        lemma_pairs_unique(x, y);
    }
}

// ---------- one group ----------

/// Whether a value ranks before another: it is greater for `topk` and less for
/// `bottomk`, and a number ranks before a NaN.
pub open spec fn outranks(top: bool, a: u64, b: u64) -> bool {
    ||| top && less_bits(b, a)
    ||| !top && less_bits(a, b)
    ||| !is_nan_bits(a) && is_nan_bits(b)
}

/// Ranks go by value.
pub proof fn law_ranks_go_by_value(a: u64, b: u64, top: bool)
    ensures
        rank(a, top) < rank(b, top) <==> outranks(top, a, b),
{
}

/// The points of a group, ranked: first those that are kept, then those that are
/// dropped.
proof fn lemma_ranked(points: Seq<PointView>, top: bool)
    ensures
        ranked(points, top).len() == points.len(),
        ranked(points, top).to_multiset() == points.to_multiset(),
        forall|i: int, j: int|
            0 <= i < j < points.len() ==> !outranks(
                top,
                (#[trigger] ranked(points, top)[j]).value,
                (#[trigger] ranked(points, top)[i]).value,
            ),
{
    let input = with_ranks(points, top);
    lemma_stable_order_exists::<i64, PointView>(input);
    let out = stable_order::<i64, PointView>(input);
    let second = |e: (i64, PointView)| e.1;
    lemma_same_under_every_key(out, input);
    lemma_mapped_permutes(out, input, second);
    assert(input.map_values(second) =~= points);
    assert(out.map_values(second) =~= ranked(points, top));
    assert forall|i: int| 0 <= i < out.len() implies (#[trigger] out[i]).0 == rank(
        out[i].1.value,
        top,
    ) by {
        lemma_member(out, input, i);
        let w = choose|w: int| 0 <= w < input.len() && input[w] == out[i];
        assert(input[w] == (rank(points[w].value, top), points[w]));
    }
    assert forall|i: int, j: int| 0 <= i < j < points.len() implies !outranks(
        top,
        (#[trigger] ranked(points, top)[j]).value,
        (#[trigger] ranked(points, top)[i]).value,
    ) by {
        assert(!(out[j].0 < out[i].0));
        law_ranks_go_by_value(out[j].1.value, out[i].1.value, top);
    }
}

/// What is in a list is in every permutation of it.
pub proof fn lemma_member<T>(a: Seq<T>, b: Seq<T>, i: int)
    requires
        a.to_multiset() == b.to_multiset(),
        0 <= i < a.len(),
    ensures
        b.contains(a[i]),
{
    broadcast use vstd::seq_lib::group_to_multiset_ensures;

    assert(a.contains(a[i]));
    assert(a.to_multiset().count(a[i]) > 0);
}

/// Whether some points are the best `n` of others, the best first: they are among
/// them, all of them where there are not more, and none of the others ranks before
/// one of them.
pub open spec fn are_the_best(
    kept: Seq<PointView>,
    points: Seq<PointView>,
    n: nat,
    top: bool,
) -> bool {
    exists|dropped: Seq<PointView>|
        {
            &&& #[trigger] (kept + dropped).to_multiset() == points.to_multiset()
            &&& kept.len() <= n
            &&& kept.len() < n ==> dropped.len() == 0
            &&& forall|i: int, j: int|
                0 <= i < kept.len() && 0 <= j < dropped.len() ==> !outranks(
                    top,
                    (#[trigger] dropped[j]).value,
                    (#[trigger] kept[i]).value,
                )
            &&& forall|i: int, j: int|
                0 <= i < j < kept.len() ==> !outranks(
                    top,
                    (#[trigger] kept[j]).value,
                    (#[trigger] kept[i]).value,
                )
        }
}

proof fn lemma_chosen(points: Seq<PointView>, n: usize, top: bool)
    ensures
        are_the_best(chosen(points, n, top), points, n as nat, top),
{
    let all = ranked(points, top);
    let kept = chosen(points, n, top);
    lemma_ranked(points, top);
    let dropped = if n < points.len() {
        all.skip(n as int)
    } else {
        Seq::empty()
    };
    assert(kept + dropped =~= all);
    assert((kept + dropped).to_multiset() == points.to_multiset());
    assert forall|i: int, j: int| 0 <= i < kept.len() && 0 <= j < dropped.len() implies !outranks(
        top,
        (#[trigger] dropped[j]).value,
        (#[trigger] kept[i]).value,
    ) by {
        assert(dropped[j] == all[n + j] && kept[i] == all[i]);
    }
    assert forall|i: int, j: int| 0 <= i < j < kept.len() implies !outranks(
        top,
        (#[trigger] kept[j]).value,
        (#[trigger] kept[i]).value,
    ) by {
        assert(kept[i] == all[i] && kept[j] == all[j]);
    }
}

// ---------- groups one by one ----------

/// The points of a group.
pub open spec fn group(points: Seq<PointView>, modifier: Option<&Grouping>, g: Pairs) -> Seq<
    PointView,
> {
    points.filter(|p: PointView| retained(p.labels, modifier) == g)
}

/// The points of a group are those filed under its labels.
pub proof fn lemma_group(points: Seq<PointView>, modifier: Option<&Grouping>, g: Pairs)
    ensures
        group(points, modifier, g) == items_under(points_by_group(points, modifier), g),
    decreases points.len(),
{
    reveal(Seq::filter);
    if points.len() > 0 {
        lemma_group(points.drop_last(), modifier, g);
        assert(points_by_group(points, modifier).drop_last() =~= points_by_group(
            points.drop_last(),
            modifier,
        ));
    }
}

proof fn lemma_group_join(
    a: Seq<PointView>,
    b: Seq<PointView>,
    modifier: Option<&Grouping>,
    g: Pairs,
)
    ensures
        group(a + b, modifier, g) == group(a, modifier, g) + group(b, modifier, g),
{
    lemma_group(a, modifier, g);
    lemma_group(b, modifier, g);
    lemma_group(a + b, modifier, g);
    assert(points_by_group(a + b, modifier) =~= points_by_group(a, modifier) + points_by_group(
        b,
        modifier,
    ));
    lemma_items_under_join(points_by_group(a, modifier), points_by_group(b, modifier), g);
}

proof fn lemma_all_of_group(points: Seq<PointView>, modifier: Option<&Grouping>, g: Pairs, h: Pairs)
    requires
        forall|i: int| 0 <= i < points.len() ==> retained((#[trigger] points[i]).labels, modifier) == h,
    ensures
        group(points, modifier, g) == if g == h {
            points
        } else {
            Seq::empty()
        },
    decreases points.len(),
{
    reveal(Seq::filter);
    if points.len() > 0 {
        let rest = points.drop_last();
        assert forall|i: int| 0 <= i < rest.len() implies retained(
            (#[trigger] rest[i]).labels,
            modifier,
        ) == h by {
            assert(rest[i] == points[i]);
        }
        lemma_all_of_group(rest, modifier, g, h);
        assert(retained(points[points.len() - 1].labels, modifier) == h);
    }
    assert(group(points, modifier, g) =~= if g == h {
        points
    } else {
        Seq::empty()
    });
}

/// Lists of the members of different groups, one after another, have the members of
/// a group where its list stands.
proof fn lemma_group_of_flat(
    lists: Seq<Seq<PointView>>,
    keys: Seq<Pairs>,
    modifier: Option<&Grouping>,
    g: Pairs,
)
    requires
        lists.len() == keys.len(),
        forall|i: int, j: int|
            0 <= i < keys.len() && 0 <= j < lists[i].len() ==> retained(
                (#[trigger] lists[i][j]).labels,
                modifier,
            ) == keys[i],
        forall|i: int, j: int|
            0 <= i < j < keys.len() ==> #[trigger] keys[i] != #[trigger] keys[j],
    ensures
        forall|i: int|
            0 <= i < keys.len() && #[trigger] keys[i] == g ==> group(flat(lists), modifier, g)
                == lists[i],
        !keys.contains(g) ==> group(flat(lists), modifier, g) == Seq::<PointView>::empty(),
    decreases lists.len(),
{
    let n = lists.len() - 1;
    if lists.len() == 0 {
        assert(flat(lists) =~= Seq::empty());
        lemma_all_of_group(flat(lists), modifier, g, g);
    } else {
        let rest = lists.drop_last();
        let before = keys.drop_last();
        assert forall|i: int, j: int| 0 <= i < before.len() && 0 <= j < rest[i].len() implies retained(
            (#[trigger] rest[i][j]).labels,
            modifier,
        ) == before[i] by {
            assert(rest[i] == lists[i]);
            assert(retained(lists[i][j].labels, modifier) == keys[i]);
        }
        assert forall|i: int, j: int| 0 <= i < j < before.len() implies #[trigger] before[i]
            != #[trigger] before[j] by {
            assert(keys[i] != keys[j]);
        }
        lemma_group_of_flat(rest, before, modifier, g);
        assert(lists[n] == lists.last());
        assert forall|j: int| 0 <= j < lists.last().len() implies retained(
            (#[trigger] lists.last()[j]).labels,
            modifier,
        ) == keys[n] by {
            assert(retained(lists[n][j].labels, modifier) == keys[n]);
        }
        lemma_all_of_group(lists.last(), modifier, g, keys[n]);
        lemma_group_join(flat(rest), lists.last(), modifier, g);
        let out = group(flat(lists), modifier, g);
        let a = group(flat(rest), modifier, g);
        assert(out == a + group(lists.last(), modifier, g));
        if keys[n] == g {
            if before.contains(g) {
                let i = choose|i: int| 0 <= i < before.len() && before[i] == g;
                assert(keys[i] != keys[n]);
            }
            assert(out =~= lists[n]);
        } else {
            assert(out =~= a);
        }
        assert forall|i: int| 0 <= i < keys.len() && #[trigger] keys[i] == g implies out
            == lists[i] by {
            if i < n {
                assert(before[i] == g);
                assert(rest[i] == lists[i]);
            }
        }
        if !keys.contains(g) {
            if before.contains(g) {
                let i = choose|i: int| 0 <= i < before.len() && before[i] == g;
                assert(keys[i] == g);
            }
            assert(keys[n] != g);
        }
    }
}

proof fn lemma_distinct_keys(keys: Seq<Pairs>)
    requires
        increasing::<Labels>(keys),
    ensures
        forall|i: int, j: int| 0 <= i < j < keys.len() ==> #[trigger] keys[i] != #[trigger] keys[j],
{
    assert forall|i: int, j: int| 0 <= i < j < keys.len() implies #[trigger] keys[i]
        != #[trigger] keys[j] by {
        assert(<Labels as SortKey>::before(keys[i], keys[j]));
        <Labels as SortKey>::irreflexive(keys[i]);
    }
}

proof fn lemma_top_of_lists(
    points: Seq<PointView>,
    n: usize,
    top: bool,
    modifier: Option<&Grouping>,
)
    ensures
        ({
            let input = points_by_group(points, modifier);
            let keys = keys_of::<Labels, PointView>(input);
            let lists = Seq::new(keys.len(), |i: int| chosen(items_under(input, keys[i]), n, top));
            &&& increasing::<Labels>(keys)
            &&& forall|i: int, j: int|
                0 <= i < keys.len() && 0 <= j < lists[i].len() ==> retained(
                    (#[trigger] lists[i][j]).labels,
                    modifier,
                ) == keys[i]
        }),
{
    let input = points_by_group(points, modifier);
    let keys = keys_of::<Labels, PointView>(input);
    let lists = Seq::new(keys.len(), |i: int| chosen(items_under(input, keys[i]), n, top));
    lemma_keys_of_exists::<Labels, PointView>(input);
    assert forall|i: int, j: int| 0 <= i < keys.len() && 0 <= j < lists[i].len() implies retained(
        (#[trigger] lists[i][j]).labels,
        modifier,
    ) == keys[i] by {
        let members = items_under(input, keys[i]);
        lemma_ranked(members, top);
        let r = ranked(members, top);
        assert(lists[i][j] == r[j]);
        lemma_member(r, members, j);
        let w = choose|w: int| 0 <= w < members.len() && members[w] == r[j];
        lemma_item_comes_from(input, keys[i], w);
    }
}

proof fn lemma_group_of_top(
    points: Seq<PointView>,
    n: usize,
    top: bool,
    modifier: Option<&Grouping>,
    g: Pairs,
)
    ensures
        group(top_points(points, n, top, modifier), modifier, g) == chosen(
            group(points, modifier, g),
            n,
            top,
        ),
{
    let input = points_by_group(points, modifier);
    let keys = keys_of::<Labels, PointView>(input);
    let lists = Seq::new(keys.len(), |i: int| chosen(items_under(input, keys[i]), n, top));
    lemma_keys_of_exists::<Labels, PointView>(input);
    lemma_distinct_keys(keys);
    lemma_group(points, modifier, g);
    let all = group(points, modifier, g);
    lemma_top_of_lists(points, n, top, modifier);
    lemma_group_of_flat(lists, keys, modifier, g);
    if n == 0 {
        assert(top_points(points, n, top, modifier) =~= Seq::empty());
        lemma_all_of_group(top_points(points, n, top, modifier), modifier, g, g);
        lemma_ranked(all, top);
        assert(chosen(all, n, top) =~= Seq::empty());
    } else if keys.contains(g) {
        let i = choose|i: int| 0 <= i < keys.len() && keys[i] == g;
        assert(lists[i] == chosen(all, n, top));
    } else {
        lemma_items_under_empty(input, g);
        if has_key(input, g) {
            let w = choose|w: int| 0 <= w < input.len() && (#[trigger] input[w]).0 == g;
            assert(keys.contains(input[w].0));
        }
        lemma_ranked(all, top);
        assert(chosen(all, n, top) =~= Seq::empty());
    }
}

/// Of each group of points, and of each by itself, a ranking keeps the best, as they
/// are: what it keeps of a group are the best `n` of the group, the best first.
pub proof fn law_each_group_keeps_its_best(
    points: Seq<PointView>,
    n: usize,
    top: bool,
    modifier: Option<&Grouping>,
    g: Pairs,
)
    ensures
        are_the_best(
            group(top_points(points, n, top, modifier), modifier, g),
            group(points, modifier, g),
            n as nat,
            top,
        ),
{
    lemma_group_of_top(points, n, top, modifier, g);
    lemma_chosen(group(points, modifier, g), n, top);
}

/// The points that neither outrank a value nor are outranked by it.
pub open spec fn level(points: Seq<PointView>, top: bool, value: u64) -> Seq<PointView> {
    points.filter(|p: PointView| !outranks(top, p.value, value) && !outranks(top, value, p.value))
}

proof fn lemma_level(points: Seq<PointView>, top: bool, value: u64)
    ensures
        level(points, top, value) == items_under(with_ranks(points, top), rank(value, top)),
    decreases points.len(),
{
    reveal(Seq::filter);
    if points.len() > 0 {
        lemma_level(points.drop_last(), top, value);
        law_ranks_go_by_value(points.last().value, value, top);
        law_ranks_go_by_value(value, points.last().value, top);
        assert(with_ranks(points, top).drop_last() =~= with_ranks(points.drop_last(), top));
    }
}

/// Points of one group that rank alike are kept in the order they came, the first
/// of them first.
pub proof fn law_points_that_rank_alike_keep_their_order(
    points: Seq<PointView>,
    n: usize,
    top: bool,
    modifier: Option<&Grouping>,
    g: Pairs,
    value: u64,
)
    ensures
        level(group(top_points(points, n, top, modifier), modifier, g), top, value).is_prefix_of(
            level(group(points, modifier, g), top, value),
        ),
{
    lemma_group_of_top(points, n, top, modifier, g);
    let all = group(points, modifier, g);
    let kept = chosen(all, n, top);
    let order = ranked(all, top);
    let input = with_ranks(all, top);
    let k = rank(value, top);
    lemma_ranked(all, top);
    lemma_stable_order_exists::<i64, PointView>(input);
    let out = stable_order::<i64, PointView>(input);
    lemma_same_under_every_key(out, input);
    assert forall|i: int| 0 <= i < out.len() implies #[trigger] out[i] == with_ranks(order, top)[i] by {
        lemma_member(out, input, i);
        let w = choose|w: int| 0 <= w < input.len() && input[w] == out[i];
        assert(input[w] == (rank(all[w].value, top), all[w]));
        assert(order[i] == out[i].1);
    }
    assert(with_ranks(order, top) =~= out);
    lemma_level(all, top, value);
    lemma_level(order, top, value);
    assert(level(order, top, value) == level(all, top, value));
    lemma_level(kept, top, value);
    let rest = if n < all.len() {
        order.skip(n as int)
    } else {
        Seq::empty()
    };
    assert(kept + rest =~= order);
    assert(with_ranks(order, top) =~= with_ranks(kept, top) + with_ranks(rest, top));
    lemma_items_under_join(with_ranks(kept, top), with_ranks(rest, top), k);
    assert(level(kept, top, value) =~= level(order, top, value).take(
        level(kept, top, value).len() as int,
    ));
}

proof fn lemma_flat_in_order(
    lists: Seq<Seq<PointView>>,
    keys: Seq<Pairs>,
    modifier: Option<&Grouping>,
)
    requires
        lists.len() == keys.len(),
        increasing::<Labels>(keys),
        forall|i: int, j: int|
            0 <= i < keys.len() && 0 <= j < lists[i].len() ==> retained(
                (#[trigger] lists[i][j]).labels,
                modifier,
            ) == keys[i],
    ensures
        forall|i: int| 0 <= i < flat(lists).len() ==> keys.contains(
            retained((#[trigger] flat(lists)[i]).labels, modifier),
        ),
        forall|i: int, j: int|
            0 <= i < j < flat(lists).len() ==> !pairs_before(
                retained((#[trigger] flat(lists)[j]).labels, modifier),
                retained((#[trigger] flat(lists)[i]).labels, modifier),
            ),
    decreases lists.len(),
{
    let out = flat(lists);
    if lists.len() > 0 {
        let n = lists.len() - 1;
        let rest = lists.drop_last();
        let before = keys.drop_last();
        assert forall|i: int, j: int| 0 <= i < before.len() && 0 <= j < rest[i].len() implies retained(
            (#[trigger] rest[i][j]).labels,
            modifier,
        ) == before[i] by {
            assert(rest[i] == lists[i]);
            assert(retained(lists[i][j].labels, modifier) == keys[i]);
        }
        assert forall|i: int, j: int| 0 <= i < j < before.len() implies <Labels as SortKey>::before(
            #[trigger] before[i],
            #[trigger] before[j],
        ) by {
            assert(<Labels as SortKey>::before(keys[i], keys[j]));
        }
        lemma_flat_in_order(rest, before, modifier);
        let head = flat(rest);
        assert(out =~= head + lists[n]);
        assert forall|i: int| 0 <= i < out.len() implies keys.contains(
            retained((#[trigger] out[i]).labels, modifier),
        ) && (i >= head.len() ==> retained(out[i].labels, modifier) == keys[n]) by {
            if i < head.len() {
                assert(out[i] == head[i]);
                let w = choose|w: int|
                    0 <= w < before.len() && before[w] == retained(head[i].labels, modifier);
                assert(keys[w] == before[w]);
            } else {
                assert(out[i] == lists[n][i - head.len()]);
                assert(retained(lists[n][i - head.len()].labels, modifier) == keys[n]);
                assert(keys[n] == retained(out[i].labels, modifier));
            }
        }
        assert forall|i: int, j: int| 0 <= i < j < out.len() implies !pairs_before(
            retained((#[trigger] out[j]).labels, modifier),
            retained((#[trigger] out[i]).labels, modifier),
        ) by {
            let a = retained(out[i].labels, modifier);
            let b = retained(out[j].labels, modifier);
            if j < head.len() {
                assert(out[i] == head[i] && out[j] == head[j]);
            } else {
                assert(b == keys[n]);
                <Labels as SortKey>::irreflexive(keys[n]);
                if i < head.len() {
                    assert(out[i] == head[i]);
                    assert(before.contains(retained(head[i].labels, modifier)));
                    let w = choose|w: int| 0 <= w < before.len() && before[w] == a;
                    assert(keys[w] == before[w]);
                    assert(<Labels as SortKey>::before(keys[w], keys[n]));
                    if pairs_before(b, a) {
                        <Labels as SortKey>::transitive(b, a, b);
                    }
                } else {
                    assert(a == keys[n]);
                }
            }
        }
    }
}

/// What is kept comes group by group, in the order of what the groups keep.
pub proof fn law_groups_come_in_order(
    points: Seq<PointView>,
    n: usize,
    top: bool,
    modifier: Option<&Grouping>,
)
    ensures
        forall|i: int, j: int|
            0 <= i < j < top_points(points, n, top, modifier).len() ==> !pairs_before(
                retained((#[trigger] top_points(points, n, top, modifier)[j]).labels, modifier),
                retained((#[trigger] top_points(points, n, top, modifier)[i]).labels, modifier),
            ),
{
    let input = points_by_group(points, modifier);
    let keys = keys_of::<Labels, PointView>(input);
    let lists = Seq::new(keys.len(), |i: int| chosen(items_under(input, keys[i]), n, top));
    lemma_top_of_lists(points, n, top, modifier);
    lemma_flat_in_order(lists, keys, modifier);
}

} // verus!
