//! Lists that hold the same items in another order.

use vstd::prelude::*;
use vstd::seq_lib::group_to_multiset_ensures;
use crate::ordered::{flat, items_under, lemma_item_comes_from};

verus! {

/// How often an item is filed under a key.
pub proof fn lemma_count_under<V, T>(input: Seq<(V, T)>, k: V, v: T)
    ensures
        items_under(input, k).to_multiset().count(v) == input.to_multiset().count((k, v)),
    decreases input.len(),
{
    broadcast use group_to_multiset_ensures;

    if input.len() > 0 {
        let rest = input.drop_last();
        let x = input.last();
        lemma_count_under(rest, k, v);
        assert(input =~= rest.push(x));
        if x.0 == k {
            assert(items_under(input, k) == items_under(rest, k).push(x.1));
        }
    } else {
        assert(!input.contains((k, v)));
        assert(!items_under(input, k).contains(v));
    }
}

/// The items filed under a key do not depend on the order of the input, but for
/// their own order.
pub proof fn lemma_under_permuted<V, T>(a: Seq<(V, T)>, b: Seq<(V, T)>, k: V)
    requires
        a.to_multiset() == b.to_multiset(),
    ensures
        items_under(a, k).to_multiset() == items_under(b, k).to_multiset(),
        items_under(a, k).len() == items_under(b, k).len(),
{
    broadcast use group_to_multiset_ensures;

    let x = items_under(a, k).to_multiset();
    let y = items_under(b, k).to_multiset();
    assert forall|v: T| x.count(v) == y.count(v) by {
        lemma_count_under(a, k, v);
        lemma_count_under(b, k, v);
    }
    assert(x =~= y);
    assert(items_under(a, k).len() == x.len());
    assert(items_under(b, k).len() == y.len());
}

/// Adding to one list adds to the lists joined.
pub proof fn lemma_flat_grows<T>(lists: Seq<Seq<T>>, j: int, v: T)
    requires
        0 <= j < lists.len(),
    ensures
        flat(lists.update(j, lists[j].push(v))).to_multiset() == flat(lists).to_multiset().insert(v),
    decreases lists.len(),
{
    broadcast use group_to_multiset_ensures;

    let more = lists.update(j, lists[j].push(v));
    let rest = lists.drop_last();
    let last = lists.last();
    if j == lists.len() - 1 {
        assert(more.drop_last() =~= rest);
        assert(flat(more) =~= flat(lists).push(v));
    } else {
        lemma_flat_grows(rest, j, v);
        assert(more.drop_last() =~= rest.update(j, rest[j].push(v)));
        assert(more.last() == last);
        vstd::seq_lib::lemma_multiset_commutative(flat(more.drop_last()), last);
        vstd::seq_lib::lemma_multiset_commutative(flat(rest), last);
        assert(flat(more).to_multiset() =~= flat(lists).to_multiset().insert(v));
    }
}

/// The items of an input, key by key.
pub open spec fn key_by_key<V, T>(input: Seq<(V, T)>, keys: Seq<V>) -> Seq<Seq<T>> {
    keys.map_values(|k: V| items_under(input, k))
}

/// Gathering items by key keeps them all.
pub proof fn lemma_gathering_permutes<V, T>(input: Seq<(V, T)>, keys: Seq<V>)
    requires
        keys.no_duplicates(),
        forall|i: int| 0 <= i < input.len() ==> keys.contains((#[trigger] input[i]).0),
    ensures
        flat(key_by_key(input, keys)).to_multiset() == input.map_values(
            |e: (V, T)| e.1,
        ).to_multiset(),
    decreases input.len(),
{
    broadcast use group_to_multiset_ensures;

    let g = |e: (V, T)| e.1;
    let lists = key_by_key(input, keys);
    if input.len() == 0 {
        lemma_flat_of_empty(lists);
        assert(flat(lists) =~= input.map_values(g));
    } else {
        let rest = input.drop_last();
        let x = input.last();
        assert forall|i: int| 0 <= i < rest.len() implies keys.contains((#[trigger] rest[i]).0) by {
            assert(rest[i] == input[i]);
        }
        lemma_gathering_permutes(rest, keys);
        assert(keys.contains(input[input.len() - 1].0));
        let j = choose|j: int| 0 <= j < keys.len() && keys[j] == x.0;
        let before = key_by_key(rest, keys);
        assert(lists =~= before.update(j, before[j].push(x.1)));
        lemma_flat_grows(before, j, x.1);
        assert(input.map_values(g) =~= rest.map_values(g).push(x.1));
    }
}

/// Empty lists joined are empty.
pub proof fn lemma_flat_of_empty<T>(lists: Seq<Seq<T>>)
    requires
        forall|i: int| 0 <= i < lists.len() ==> (#[trigger] lists[i]).len() == 0,
    ensures
        flat(lists) == Seq::<T>::empty(),
    decreases lists.len(),
{
    if lists.len() > 0 {
        let rest = lists.drop_last();
        assert forall|i: int| 0 <= i < rest.len() implies (#[trigger] rest[i]).len() == 0 by {
            assert(rest[i] == lists[i]);
        }
        lemma_flat_of_empty(rest);
        assert(lists[lists.len() - 1].len() == 0);
    }
    assert(flat(lists) =~= Seq::<T>::empty());
}

/// Items under one key stand in the order of the input.
pub proof fn lemma_items_in_order<V, T>(input: Seq<(V, T)>, k: V, a: int, b: int)
    requires
        0 <= a < b < items_under(input, k).len(),
    ensures
        exists|i: int, j: int|
            0 <= i < j < input.len() && #[trigger] input[i] == (k, items_under(input, k)[a])
                && #[trigger] input[j] == (k, items_under(input, k)[b]),
    decreases input.len(),
{
    let rest = input.drop_last();
    let before = items_under(rest, k);
    if b < before.len() {
        lemma_items_in_order(rest, k, a, b);
        let (i, j) = choose|i: int, j: int|
            0 <= i < j < rest.len() && #[trigger] rest[i] == (k, before[a]) && #[trigger] rest[j]
                == (k, before[b]);
        assert(input[i] == rest[i] && input[j] == rest[j]);
    } else {
        lemma_item_comes_from(rest, k, a);
        let i = choose|i: int| 0 <= i < rest.len() && #[trigger] rest[i] == (k, before[a]);
        assert(input[i] == rest[i]);
        assert(input[input.len() - 1] == (k, items_under(input, k)[b]));
    }
}

/// Lists of different items, each with the items of the other, are permutations
/// of each other.
pub proof fn lemma_same_items<T>(a: Seq<T>, b: Seq<T>)
    requires
        a.no_duplicates(),
        b.no_duplicates(),
        forall|i: int| 0 <= i < a.len() ==> b.contains(#[trigger] a[i]),
        forall|i: int| 0 <= i < b.len() ==> a.contains(#[trigger] b[i]),
    ensures
        a.to_multiset() == b.to_multiset(),
        a.len() == b.len(),
{
    broadcast use group_to_multiset_ensures;

    a.lemma_multiset_has_no_duplicates();
    b.lemma_multiset_has_no_duplicates();
    let x = a.to_multiset();
    let y = b.to_multiset();
    assert forall|v: T| x.count(v) == y.count(v) by {
        if a.contains(v) {
            assert(x.contains(v));
            assert(y.contains(v));
        }
        if b.contains(v) {
            assert(y.contains(v));
            assert(x.contains(v));
        }
    }
    assert(x =~= y);
    assert(a.len() == x.len());
    assert(b.len() == y.len());
}

/// What is made of the items of a permutation is a permutation.
pub proof fn lemma_mapped_permutes<T, U>(a: Seq<T>, b: Seq<T>, f: spec_fn(T) -> U)
    requires
        a.to_multiset() == b.to_multiset(),
    ensures
        a.map_values(f).to_multiset() == b.map_values(f).to_multiset(),
    decreases a.len(),
{
    broadcast use group_to_multiset_ensures;

    assert(a.len() == a.to_multiset().len());
    assert(b.len() == b.to_multiset().len());
    if a.len() > 0 {
        let x = a.last();
        let n = a.len() - 1;
        assert(a[n] == x);
        assert(a.contains(x));
        assert(b.to_multiset().count(x) > 0);
        let j = choose|j: int| 0 <= j < b.len() && b[j] == x;
        assert(a.remove(n) =~= a.drop_last());
        assert(a.remove(n).to_multiset() == b.remove(j).to_multiset());
        lemma_mapped_permutes(a.drop_last(), b.remove(j), f);
        let fa = a.map_values(f);
        let fb = b.map_values(f);
        assert(fa.remove(n) =~= a.drop_last().map_values(f));
        assert(fb.remove(j) =~= b.remove(j).map_values(f));
        assert(fa[n] == f(x) && fb[j] == f(x));
        assert(fa.to_multiset() =~= fa.remove(n).to_multiset().insert(f(x)));
        assert(fb.to_multiset() =~= fb.remove(j).to_multiset().insert(f(x)));
    } else {
        assert(a.map_values(f) =~= b.map_values(f));
    }
}

/// Items that differ from all that follow are different.
pub proof fn lemma_distinct<T>(s: Seq<T>)
    requires
        forall|i: int, j: int| 0 <= i < j < s.len() ==> #[trigger] s[i] != #[trigger] s[j],
    ensures
        s.no_duplicates(),
{
}

/// A filter that every item meets keeps them all.
pub proof fn lemma_filter_keeps<T>(s: Seq<T>, f: spec_fn(T) -> bool)
    requires
        forall|i: int| 0 <= i < s.len() ==> f(#[trigger] s[i]),
    ensures
        s.filter(f) == s,
    decreases s.len(),
{
    reveal(Seq::filter);
    if s.len() > 0 {
        let rest = s.drop_last();
        assert forall|i: int| 0 <= i < rest.len() implies f(#[trigger] rest[i]) by {
            assert(rest[i] == s[i]);
        }
        lemma_filter_keeps(rest, f);
        assert(f(s[s.len() - 1]));
    }
    assert(s.filter(f) =~= s);
}

/// Lists with the same items under every key are permutations of each other.
pub proof fn lemma_same_under_every_key<V, T>(a: Seq<(V, T)>, b: Seq<(V, T)>)
    requires
        forall|k: V| #[trigger] items_under(a, k) == items_under(b, k),
    ensures
        a.to_multiset() == b.to_multiset(),
{
    let x = a.to_multiset();
    let y = b.to_multiset();
    assert forall|e: (V, T)| x.count(e) == y.count(e) by {
        lemma_count_under(a, e.0, e.1);
        lemma_count_under(b, e.0, e.1);
        assert(items_under(a, e.0) == items_under(b, e.0));
    }
    assert(x =~= y);
}

} // verus!
