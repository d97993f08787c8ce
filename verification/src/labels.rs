//! A series' labels: a map from label name to value, walked in name order.

use vstd::prelude::*;
use crate::ordered::{increasing, lemma_increasing_unique, SortKey};
use crate::text::{
    holds_text, lemma_text_irreflexive, lemma_text_total, lemma_text_transitive, same_text,
    text_before, text_precedes, texts,
};

verus! {

/// Name and value pairs.
pub type Pairs = Seq<(Seq<char>, Seq<char>)>;

/// The names of a list of pairs.
pub open spec fn names_of(p: Pairs) -> Seq<Seq<char>> {
    p.map_values(|e: (Seq<char>, Seq<char>)| e.0)
}

/// Whether the pairs are in strict name order, so that no name occurs twice.
pub open spec fn in_name_order(p: Pairs) -> bool {
    increasing::<String>(names_of(p))
}

/// The value of `name`, the last one where a name occurs twice.
pub open spec fn lookup(p: Pairs, name: Seq<char>) -> Option<Seq<char>>
    decreases p.len(),
{
    if p.len() == 0 {
        None
    } else if p.last().0 == name {
        Some(p.last().1)
    } else {
        lookup(p.drop_last(), name)
    }
}

/// The pairs as a map; where a name occurs twice the later value counts.
pub open spec fn as_map(p: Pairs) -> Map<Seq<char>, Seq<char>> {
    Map::new(|name: Seq<char>| lookup(p, name) is Some, |name: Seq<char>| lookup(p, name)->0)
}

/// Whether `q` is the list of pairs, in name order, of the map that `p` is.
pub open spec fn is_label_map(q: Pairs, p: Pairs) -> bool {
    in_name_order(q) && forall|n: Seq<char>| #[trigger] lookup(q, n) == lookup(p, n)
}

/// The pairs, in name order, of the map that `p` is. There is only one such
/// list.
pub open spec fn label_map(p: Pairs) -> Pairs {
    choose|q: Pairs| is_label_map(q, p)
}

/// A list in name order that agrees with `p` on every name is its label map.
pub proof fn lemma_label_map(q: Pairs, p: Pairs)
    requires
        is_label_map(q, p),
    ensures
        label_map(p) == q,
{
    let m = label_map(p);
    assert(is_label_map(m, p));
    assert forall|n: Seq<char>| #[trigger] lookup(m, n) == lookup(q, n) by {
        assert(lookup(q, n) == lookup(p, n));
    }
    lemma_pairs_unique(m, q);
}

/// The views of a list of string pairs.
pub open spec fn pair_views(s: Seq<(String, String)>) -> Pairs {
    s.map_values(|e: (String, String)| (e.0@, e.1@))
}

/// A value found is that of some pair.
pub proof fn lemma_lookup_some(p: Pairs, name: Seq<char>)
    ensures
        lookup(p, name) is Some ==> exists|i: int|
            0 <= i < p.len() && #[trigger] p[i] == (name, lookup(p, name)->0),
        lookup(p, name) is None ==> forall|i: int| 0 <= i < p.len() ==> (#[trigger] p[i]).0 != name,
    decreases p.len(),
{
    if p.len() > 0 {
        if p.last().0 == name {
            assert(p[p.len() - 1] == (name, p.last().1));
        } else {
            let q = p.drop_last();
            lemma_lookup_some(q, name);
            if lookup(q, name) is Some {
                let i = choose|i: int|
                    0 <= i < q.len() && #[trigger] q[i] == (name, lookup(q, name)->0);
                assert(p[i] == q[i]);
            } else {
                assert forall|i: int| 0 <= i < p.len() implies (#[trigger] p[i]).0 != name by {
                    if i < q.len() {
                        assert(q[i] == p[i]);
                    }
                }
            }
        }
    }
}

/// In name order, looking a pair's name up finds that pair's value.
pub proof fn lemma_lookup_at(p: Pairs, i: int)
    requires
        in_name_order(p),
        0 <= i < p.len(),
    ensures
        lookup(p, p[i].0) == Some(p[i].1),
    decreases p.len(),
{
    let q = p.drop_last();
    assert(names_of(q) =~= names_of(p).drop_last());
    if i < p.len() - 1 {
        assert(names_of(p)[i] == p[i].0);
        assert(names_of(p)[p.len() - 1] == p.last().0);
        assert(text_before(names_of(p)[i], names_of(p)[p.len() - 1]));
        lemma_text_irreflexive(p[i].0);
        assert forall|a: int, b: int| 0 <= a < b < names_of(q).len() implies text_before(
            #[trigger] names_of(q)[a],
            #[trigger] names_of(q)[b],
        ) by {
            assert(text_before(names_of(p)[a], names_of(p)[b]));
        }
        lemma_lookup_at(q, i);
    }
}

/// Two lists in name order that agree on every name are the same list: a map
/// of labels has one list of pairs.
pub proof fn lemma_pairs_unique(a: Pairs, b: Pairs)
    requires
        in_name_order(a),
        in_name_order(b),
        forall|name: Seq<char>| #[trigger] lookup(a, name) == lookup(b, name),
    ensures
        a == b,
{
    assert forall|i: int| 0 <= i < names_of(a).len() implies names_of(b).contains(
        #[trigger] names_of(a)[i],
    ) by {
        lemma_lookup_at(a, i);
        assert(lookup(b, a[i].0) is Some);
        lemma_lookup_some(b, a[i].0);
        let j = choose|j: int| 0 <= j < b.len() && #[trigger] b[j] == (a[i].0, lookup(b, a[i].0)->0);
        assert(names_of(b)[j] == a[i].0);
    }
    assert forall|i: int| 0 <= i < names_of(b).len() implies names_of(a).contains(
        #[trigger] names_of(b)[i],
    ) by {
        lemma_lookup_at(b, i);
        assert(lookup(a, b[i].0) is Some);
        lemma_lookup_some(a, b[i].0);
        let j = choose|j: int| 0 <= j < a.len() && #[trigger] a[j] == (b[i].0, lookup(a, b[i].0)->0);
        assert(names_of(a)[j] == b[i].0);
    }
    lemma_increasing_unique::<String>(names_of(a), names_of(b));
    assert(a.len() == names_of(a).len());
    assert(b.len() == names_of(b).len());
    assert forall|i: int| 0 <= i < a.len() implies a[i] == b[i] by {
        assert(names_of(a)[i] == a[i].0);
        assert(names_of(b)[i] == b[i].0);
        lemma_lookup_at(a, i);
        lemma_lookup_at(b, i);
    }
    assert(a =~= b);
}

/// The order of label maps: that of their pairs, name before value, one after
/// another.
pub open spec fn pairs_before(a: Pairs, b: Pairs) -> bool
    decreases a.len(),
{
    if b.len() == 0 {
        false
    } else if a.len() == 0 {
        true
    } else if a[0].0 != b[0].0 {
        text_before(a[0].0, b[0].0)
    } else if a[0].1 != b[0].1 {
        text_before(a[0].1, b[0].1)
    } else {
        pairs_before(a.skip(1), b.skip(1))
    }
}

proof fn lemma_pairs_irreflexive(a: Pairs)
    ensures
        !pairs_before(a, a),
    decreases a.len(),
{
    if a.len() > 0 {
        lemma_pairs_irreflexive(a.skip(1));
    }
}

proof fn lemma_pairs_transitive(a: Pairs, b: Pairs, c: Pairs)
    requires
        pairs_before(a, b),
        pairs_before(b, c),
    ensures
        pairs_before(a, c),
    decreases a.len(),
{
    if a.len() > 0 {
        if a[0].0 != b[0].0 {
            if b[0].0 != c[0].0 {
                lemma_text_transitive(a[0].0, b[0].0, c[0].0);
                lemma_text_irreflexive(a[0].0);
            }
        } else if b[0].0 != c[0].0 {
        } else if a[0].1 != b[0].1 {
            if b[0].1 != c[0].1 {
                lemma_text_transitive(a[0].1, b[0].1, c[0].1);
                lemma_text_irreflexive(a[0].1);
            }
        } else if b[0].1 != c[0].1 {
        } else {
            lemma_pairs_transitive(a.skip(1), b.skip(1), c.skip(1));
        }
    }
}

proof fn lemma_pairs_total(a: Pairs, b: Pairs)
    ensures
        a == b || pairs_before(a, b) || pairs_before(b, a),
    decreases a.len(),
{
    if a.len() > 0 && b.len() > 0 {
        if a[0].0 != b[0].0 {
            lemma_text_total(a[0].0, b[0].0);
        } else if a[0].1 != b[0].1 {
            lemma_text_total(a[0].1, b[0].1);
        } else {
            lemma_pairs_total(a.skip(1), b.skip(1));
            if a.skip(1) == b.skip(1) {
                assert(a =~= seq![a[0]] + a.skip(1));
                assert(b =~= seq![b[0]] + b.skip(1));
            }
        }
    } else if a.len() == 0 && b.len() == 0 {
        assert(a =~= b);
    }
}

proof fn lemma_pairs_common_prefix(a: Pairs, b: Pairs, n: int)
    requires
        0 <= n <= a.len(),
        n <= b.len(),
        a.take(n) == b.take(n),
    ensures
        pairs_before(a, b) == pairs_before(a.skip(n), b.skip(n)),
    decreases n,
{
    if n == 0 {
        assert(a.skip(0) =~= a);
        assert(b.skip(0) =~= b);
    } else {
        assert(a.take(n)[0] == a[0]);
        assert(b.take(n)[0] == b[0]);
        assert(a.skip(1).take(n - 1) =~= a.take(n).skip(1));
        assert(b.skip(1).take(n - 1) =~= b.take(n).skip(1));
        lemma_pairs_common_prefix(a.skip(1), b.skip(1), n - 1);
        assert(a.skip(1).skip(n - 1) =~= a.skip(n));
        assert(b.skip(1).skip(n - 1) =~= b.skip(n));
    }
}

/// The pairs whose name is in the list, or, where `keep` is false, those whose
/// name is not.
pub open spec fn named(p: Pairs, names: Seq<Seq<char>>, keep: bool) -> Pairs
    decreases p.len(),
{
    if p.len() == 0 {
        Seq::empty()
    } else if names.contains(p.last().0) == keep {
        named(p.drop_last(), names, keep).push(p.last())
    } else {
        named(p.drop_last(), names, keep)
    }
}

/// What is picked from pairs in name order is in name order.
pub proof fn lemma_named_ordered(p: Pairs, names: Seq<Seq<char>>, keep: bool)
    requires
        in_name_order(p),
    ensures
        in_name_order(named(p, names, keep)),
        forall|i: int|
            0 <= i < named(p, names, keep).len() ==> p.contains(#[trigger] named(p, names, keep)[i]),
    decreases p.len(),
{
    if p.len() > 0 {
        let q = p.drop_last();
        assert(in_name_order(q)) by {
            assert forall|a: int, b: int| 0 <= a < b < names_of(q).len() implies text_before(
                #[trigger] names_of(q)[a],
                #[trigger] names_of(q)[b],
            ) by {
                assert(text_before(names_of(p)[a], names_of(p)[b]));
            }
        }
        lemma_named_ordered(q, names, keep);
        let n = named(q, names, keep);
        let r = named(p, names, keep);
        assert forall|i: int| 0 <= i < n.len() implies p.contains(#[trigger] n[i]) && text_before(
            n[i].0,
            p.last().0,
        ) by {
            assert(q.contains(n[i]));
            let w = choose|w: int| 0 <= w < q.len() && q[w] == n[i];
            assert(p[w] == n[i]);
            assert(text_before(names_of(p)[w], names_of(p)[p.len() - 1]));
        }
        assert(p[p.len() - 1] == p.last());
        assert forall|a: int, b: int| 0 <= a < b < names_of(r).len() implies text_before(
            #[trigger] names_of(r)[a],
            #[trigger] names_of(r)[b],
        ) by {
            if b < n.len() {
                assert(text_before(names_of(n)[a], names_of(n)[b]));
            } else {
                assert(names_of(r)[a] == n[a].0);
            }
        }
        assert forall|i: int| 0 <= i < r.len() implies p.contains(#[trigger] r[i]) by {
            if i < n.len() {
                assert(r[i] == n[i]);
            }
        }
    }
}

/// A series' labels. No name occurs twice, and the labels are walked in name
/// order.
#[derive(Debug)]
pub struct Labels {
    entries: Vec<(String, String)>,
}

impl View for Labels {
    type V = Pairs;

    closed spec fn view(&self) -> Pairs {
        pair_views(self.entries@)
    }
}

impl Labels {
    #[verifier::type_invariant]
    spec fn ordered(self) -> bool {
        in_name_order(pair_views(self.entries@))
    }

    /// The labels as a map.
    pub open spec fn map(self) -> Map<Seq<char>, Seq<char>> {
        as_map(self@)
    }

    /// No labels.
    pub fn new() -> (r: Labels)
        ensures
            r@ == Pairs::empty(),
    {
        let entries: Vec<(String, String)> = Vec::new();
        assert(pair_views(entries@) =~= Pairs::empty());
        Labels { entries }
    }

    /// How many labels there are. They are in name order.
    pub fn len(&self) -> (r: usize)
        ensures
            r == self@.len(),
            in_name_order(self@),
    {
        proof {
            use_type_invariant(self);
        }
        self.entries.len()
    }

    /// Whether there are no labels.
    pub fn is_empty(&self) -> (r: bool)
        ensures
            r == (self@.len() == 0),
    {
        self.entries.len() == 0
    }

    /// The name of the label at place `i` in name order.
    pub fn name_at(&self, i: usize) -> (r: &String)
        requires
            i < self@.len(),
        ensures
            r@ == self@[i as int].0,
    {
        &self.entries[i].0
    }

    /// The value of the label at place `i` in name order.
    pub fn value_at(&self, i: usize) -> (r: &String)
        requires
            i < self@.len(),
        ensures
            r@ == self@[i as int].1,
    {
        &self.entries[i].1
    }

    /// The place of `name`: where it stands, or where it would stand.
    fn place_of(&self, name: &str) -> (r: (usize, bool))
        ensures
            r.0 <= self@.len(),
            forall|j: int| 0 <= j < r.0 ==> text_before((#[trigger] self@[j]).0, name@),
            forall|j: int|
                r.0 <= j < self@.len() ==> !text_before((#[trigger] self@[j]).0, name@),
            r.1 == (r.0 < self@.len() && self@[r.0 as int].0 == name@),
    {
        proof {
            use_type_invariant(self);
        }
        let ghost p = self@;
        let mut lo: usize = 0;
        let mut hi: usize = self.entries.len();
        while lo < hi
            invariant
                p == self@,
                in_name_order(p),
                lo <= hi <= p.len(),
                p.len() == self.entries@.len(),
                forall|j: int| 0 <= j < lo ==> text_before((#[trigger] p[j]).0, name@),
                forall|j: int| hi <= j < p.len() ==> !text_before((#[trigger] p[j]).0, name@),
            decreases hi - lo,
        {
            let mid: usize = lo + (hi - lo) / 2;
            assert(self.entries@[mid as int].0@ == p[mid as int].0);
            if text_precedes(self.entries[mid].0.as_str(), name) {
                proof {
                    assert forall|j: int| 0 <= j < mid + 1 implies text_before(
                        (#[trigger] p[j]).0,
                        name@,
                    ) by {
                        if j < mid {
                            assert(text_before(names_of(p)[j], names_of(p)[mid as int]));
                            lemma_text_transitive(p[j].0, p[mid as int].0, name@);
                        }
                    }
                }
                lo = mid + 1;
            } else {
                proof {
                    assert forall|j: int| mid <= j < p.len() implies !text_before(
                        (#[trigger] p[j]).0,
                        name@,
                    ) by {
                        if j > mid && text_before(p[j].0, name@) {
                            assert(text_before(names_of(p)[mid as int], names_of(p)[j]));
                            lemma_text_transitive(p[mid as int].0, p[j].0, name@);
                        }
                    }
                }
                hi = mid;
            }
        }
        let found = lo < self.entries.len() && same_text(self.entries[lo].0.as_str(), name);
        (lo, found)
    }

    proof fn lemma_place(p: Pairs, name: Seq<char>, at: int)
        requires
            in_name_order(p),
            0 <= at <= p.len(),
            forall|j: int| 0 <= j < at ==> text_before((#[trigger] p[j]).0, name),
            forall|j: int| at <= j < p.len() ==> !text_before((#[trigger] p[j]).0, name),
        ensures
            at < p.len() && p[at].0 == name ==> lookup(p, name) == Some(p[at].1),
            !(at < p.len() && p[at].0 == name) ==> lookup(p, name) is None,
            !(at < p.len() && p[at].0 == name) ==> forall|j: int|
                at <= j < p.len() ==> text_before(name, (#[trigger] p[j]).0),
    {
        if at < p.len() && p[at].0 == name {
            lemma_lookup_at(p, at);
        } else {
            assert forall|j: int| at <= j < p.len() implies text_before(
                name,
                (#[trigger] p[j]).0,
            ) by {
                lemma_text_total(name, p[at].0);
                if j > at {
                    assert(text_before(names_of(p)[at], names_of(p)[j]));
                    lemma_text_transitive(name, p[at].0, p[j].0);
                }
            }
            lemma_lookup_some(p, name);
            if lookup(p, name) is Some {
                let j = choose|j: int| 0 <= j < p.len() && #[trigger] p[j] == (name, lookup(p, name)->0);
                lemma_text_irreflexive(name);
                if j < at {
                    assert(text_before(p[j].0, name));
                } else {
                    assert(text_before(name, p[j].0));
                }
            }
        }
    }

    /// The value of `name`, if the series has that label.
    pub fn get(&self, name: &str) -> (r: Option<&String>)
        ensures
            r is Some == lookup(self@, name@) is Some,
            r is Some ==> r->0@ == lookup(self@, name@)->0,
    {
        proof {
            use_type_invariant(self);
        }
        let (at, found) = self.place_of(name);
        proof {
            Self::lemma_place(self@, name@, at as int);
        }
        if found {
            Some(&self.entries[at].1)
        } else {
            None
        }
    }

    /// Whether the series has a label of that name.
    pub fn contains_key(&self, name: &str) -> (r: bool)
        ensures
            r == lookup(self@, name@) is Some,
    {
        self.get(name).is_some()
    }

    /// Set `name` to `value`, in place of the value it had.
    pub fn insert(&mut self, name: String, value: String)
        ensures
            forall|n: Seq<char>|
                #[trigger] lookup(final(self)@, n) == if n == name@ {
                    Some(value@)
                } else {
                    lookup(old(self)@, n)
                },
            in_name_order(final(self)@),
    {
        proof {
            use_type_invariant(&*self);
        }
        let ghost p = self@;
        let ghost k = name@;
        let ghost v = value@;
        let (at, found) = self.place_of(name.as_str());
        proof {
            Self::lemma_place(p, k, at as int);
        }
        let mut entries: Vec<(String, String)> = Vec::new();
        std::mem::swap(&mut entries, &mut self.entries);
        if found {
            entries[at] = (name, value);
            proof {
                let q = pair_views(entries@);
                assert(q =~= p.update(at as int, (k, v)));
                assert(names_of(q) =~= names_of(p));
                lemma_lookup_update(p, at as int, k, v);
            }
        } else {
            entries.insert(at, (name, value));
            proof {
                let q = pair_views(entries@);
                assert(q =~= p.insert(at as int, (k, v)));
                lemma_lookup_insert(p, at as int, k, v);
            }
        }
        self.entries = entries;
    }

    /// Take `name` out; its value, if it was there.
    pub fn remove(&mut self, name: &str) -> (r: Option<String>)
        ensures
            r is Some == lookup(old(self)@, name@) is Some,
            r is Some ==> r->0@ == lookup(old(self)@, name@)->0,
            forall|n: Seq<char>|
                #[trigger] lookup(final(self)@, n) == if n == name@ {
                    None
                } else {
                    lookup(old(self)@, n)
                },
            in_name_order(final(self)@),
    {
        proof {
            use_type_invariant(&*self);
        }
        let ghost p = self@;
        let (at, found) = self.place_of(name);
        proof {
            Self::lemma_place(p, name@, at as int);
        }
        if found {
            let mut entries: Vec<(String, String)> = Vec::new();
            std::mem::swap(&mut entries, &mut self.entries);
            let e = entries.remove(at);
            proof {
                assert(pair_views(entries@) =~= p.remove(at as int));
                lemma_lookup_remove(p, at as int);
            }
            self.entries = entries;
            Some(e.1)
        } else {
            None
        }
    }

    /// The labels whose name is in the list, or, where `keep` is false, those
    /// whose name is not.
    pub fn filtered(&self, names: &Vec<String>, keep: bool) -> (r: Labels)
        ensures
            r@ == named(self@, texts(names@), keep),
    {
        proof {
            use_type_invariant(self);
        }
        let ghost p = self@;
        let ghost wanted = texts(names@);
        let mut entries: Vec<(String, String)> = Vec::new();
        let mut i: usize = 0;
        assert(pair_views(entries@) =~= named(p.take(0), wanted, keep));
        while i < self.entries.len()
            invariant
                p == pair_views(self.entries@),
                wanted == texts(names@),
                i <= self.entries@.len(),
                pair_views(entries@) == named(p.take(i as int), wanted, keep),
            decreases self.entries@.len() - i,
        {
            let ghost before = entries@;
            let e = &self.entries[i];
            proof {
                assert(p.take(i as int + 1).drop_last() =~= p.take(i as int));
                assert(p.take(i as int + 1).last() == (e.0@, e.1@));
            }
            if holds_text(names, e.0.as_str()) == keep {
                entries.push((e.0.clone(), e.1.clone()));
                assert(pair_views(entries@) =~= pair_views(before).push((e.0@, e.1@)));
            }
            i += 1;
        }
        proof {
            assert(p.take(i as int) =~= p);
            lemma_named_ordered(p, wanted, keep);
        }
        Labels { entries }
    }

    /// The labels of a list of pairs; where a name occurs twice the later value
    /// counts.
    pub fn from_pairs(pairs: Vec<(String, String)>) -> (r: Labels)
        ensures
            is_label_map(r@, pair_views(pairs@)),
            r@ == label_map(pair_views(pairs@)),
    {
        let mut r = Labels::new();
        let mut i: usize = 0;
        while i < pairs.len()
            invariant
                i <= pairs@.len(),
                in_name_order(r@),
                forall|n: Seq<char>|
                    #[trigger] lookup(r@, n) == lookup(pair_views(pairs@).take(i as int), n),
            decreases pairs@.len() - i,
        {
            r.insert(pairs[i].0.clone(), pairs[i].1.clone());
            i += 1;
            proof {
                let t = pair_views(pairs@).take(i as int);
                assert(t.drop_last() =~= pair_views(pairs@).take(i as int - 1));
                assert(t.last() == (pairs@[i as int - 1].0@, pairs@[i as int - 1].1@));
            }
        }
        assert(pair_views(pairs@).take(i as int) =~= pair_views(pairs@));
        proof {
            lemma_label_map(r@, pair_views(pairs@));
        }
        r
    }
}

/// Where a name stands, or would stand, in name order.
proof fn lemma_some_place(p: Pairs, name: Seq<char>) -> (at: int)
    requires
        in_name_order(p),
    ensures
        0 <= at <= p.len(),
        forall|j: int| 0 <= j < at ==> text_before((#[trigger] p[j]).0, name),
        forall|j: int| at <= j < p.len() ==> !text_before((#[trigger] p[j]).0, name),
    decreases p.len(),
{
    if p.len() == 0 {
        0
    } else if text_before(p.last().0, name) {
        assert forall|j: int| 0 <= j < p.len() implies text_before((#[trigger] p[j]).0, name) by {
            if j < p.len() - 1 {
                assert(text_before(names_of(p)[j], names_of(p)[p.len() - 1]));
                lemma_text_transitive(p[j].0, p.last().0, name);
            }
        }
        p.len() as int
    } else {
        let q = p.drop_last();
        assert forall|a: int, b: int| 0 <= a < b < names_of(q).len() implies text_before(
            #[trigger] names_of(q)[a],
            #[trigger] names_of(q)[b],
        ) by {
            assert(text_before(names_of(p)[a], names_of(p)[b]));
        }
        let at = lemma_some_place(q, name);
        assert forall|j: int| 0 <= j < at implies text_before((#[trigger] p[j]).0, name) by {
            assert(q[j] == p[j]);
        }
        assert forall|j: int| at <= j < p.len() implies !text_before((#[trigger] p[j]).0, name) by {
            if j < q.len() {
                assert(q[j] == p[j]);
            }
        }
        at
    }
}

/// Every list of pairs has a label map.
pub proof fn lemma_label_map_exists(p: Pairs)
    ensures
        is_label_map(label_map(p), p),
    decreases p.len(),
{
    if p.len() == 0 {
        assert(is_label_map(Pairs::empty(), p));
    } else {
        lemma_label_map_exists(p.drop_last());
        let q = label_map(p.drop_last());
        let (k, v) = p.last();
        let at = lemma_some_place(q, k);
        Labels::lemma_place(q, k, at);
        if at < q.len() && q[at].0 == k {
            lemma_lookup_update(q, at, k, v);
            assert(is_label_map(q.update(at, (k, v)), p));
        } else {
            lemma_lookup_insert(q, at, k, v);
            assert(is_label_map(q.insert(at, (k, v)), p));
        }
    }
}

proof fn lemma_lookup_update(p: Pairs, at: int, k: Seq<char>, v: Seq<char>)
    requires
        in_name_order(p),
        0 <= at < p.len(),
        p[at].0 == k,
    ensures
        in_name_order(p.update(at, (k, v))),
        forall|n: Seq<char>|
            #[trigger] lookup(p.update(at, (k, v)), n) == if n == k {
                Some(v)
            } else {
                lookup(p, n)
            },
{
    let q = p.update(at, (k, v));
    assert(names_of(q) =~= names_of(p));
    lemma_lookup_at(q, at);
    assert forall|n: Seq<char>| #[trigger] lookup(q, n) == if n == k {
        Some(v)
    } else {
        lookup(p, n)
    } by {
        if n != k {
            assert forall|i: int| 0 <= i < p.len() && (#[trigger] p[i]).0 == n implies exists|j: int|
                0 <= j < q.len() && #[trigger] q[j] == p[i] by {
                assert(q[i] == p[i]);
            }
            assert forall|i: int| 0 <= i < q.len() && (#[trigger] q[i]).0 == n implies exists|j: int|
                0 <= j < p.len() && #[trigger] p[j] == q[i] by {
                assert(p[i] == q[i]);
            }
            lemma_same_lookup(p, q, n);
        }
    }
}

/// Two lists in name order with the same pairs under `n` agree on `n`.
proof fn lemma_same_lookup(p: Pairs, q: Pairs, n: Seq<char>)
    requires
        in_name_order(p),
        in_name_order(q),
        forall|i: int|
            0 <= i < p.len() && (#[trigger] p[i]).0 == n ==> exists|j: int|
                0 <= j < q.len() && #[trigger] q[j] == p[i],
        forall|i: int|
            0 <= i < q.len() && (#[trigger] q[i]).0 == n ==> exists|j: int|
                0 <= j < p.len() && #[trigger] p[j] == q[i],
    ensures
        lookup(p, n) == lookup(q, n),
{
    lemma_lookup_some(p, n);
    lemma_lookup_some(q, n);
    if lookup(p, n) is Some {
        let i = choose|i: int| 0 <= i < p.len() && #[trigger] p[i] == (n, lookup(p, n)->0);
        let j = choose|j: int| 0 <= j < q.len() && #[trigger] q[j] == p[i];
        lemma_lookup_at(q, j);
    } else if lookup(q, n) is Some {
        let i = choose|i: int| 0 <= i < q.len() && #[trigger] q[i] == (n, lookup(q, n)->0);
        let j = choose|j: int| 0 <= j < p.len() && #[trigger] p[j] == q[i];
        assert(p[j].0 == n);
    }
}

proof fn lemma_lookup_insert(p: Pairs, at: int, k: Seq<char>, v: Seq<char>)
    requires
        in_name_order(p),
        0 <= at <= p.len(),
        forall|j: int| 0 <= j < at ==> text_before((#[trigger] p[j]).0, k),
        forall|j: int| at <= j < p.len() ==> text_before(k, (#[trigger] p[j]).0),
    ensures
        in_name_order(p.insert(at, (k, v))),
        forall|n: Seq<char>|
            #[trigger] lookup(p.insert(at, (k, v)), n) == if n == k {
                Some(v)
            } else {
                lookup(p, n)
            },
{
    let q = p.insert(at, (k, v));
    assert forall|a: int, b: int| 0 <= a < b < names_of(q).len() implies text_before(
        #[trigger] names_of(q)[a],
        #[trigger] names_of(q)[b],
    ) by {
        let a0 = if a < at { a } else { a - 1 };
        let b0 = if b < at { b } else { b - 1 };
        if a != at && b != at {
            assert(text_before(names_of(p)[a0], names_of(p)[b0]));
            assert(q[a] == p[a0] && q[b] == p[b0]);
        } else if a == at {
            assert(q[b] == p[b0]);
            assert(text_before(k, p[b0].0));
        } else {
            assert(q[a] == p[a0]);
            assert(text_before(p[a0].0, k));
        }
    }
    assert(q[at] == (k, v));
    lemma_lookup_at(q, at);
    assert forall|n: Seq<char>| #[trigger] lookup(q, n) == if n == k {
        Some(v)
    } else {
        lookup(p, n)
    } by {
        if n != k {
            assert forall|i: int| 0 <= i < p.len() && (#[trigger] p[i]).0 == n implies exists|j: int|
                0 <= j < q.len() && #[trigger] q[j] == p[i] by {
                let j = if i < at { i } else { i + 1 };
                assert(q[j] == p[i]);
            }
            assert forall|i: int| 0 <= i < q.len() && (#[trigger] q[i]).0 == n implies exists|j: int|
                0 <= j < p.len() && #[trigger] p[j] == q[i] by {
                let j = if i < at { i } else { i - 1 };
                assert(p[j] == q[i]);
            }
            lemma_same_lookup(p, q, n);
        }
    }
}

proof fn lemma_lookup_remove(p: Pairs, at: int)
    requires
        in_name_order(p),
        0 <= at < p.len(),
    ensures
        in_name_order(p.remove(at)),
        forall|n: Seq<char>|
            #[trigger] lookup(p.remove(at), n) == if n == p[at].0 {
                None
            } else {
                lookup(p, n)
            },
{
    let q = p.remove(at);
    assert forall|a: int, b: int| 0 <= a < b < names_of(q).len() implies text_before(
        #[trigger] names_of(q)[a],
        #[trigger] names_of(q)[b],
    ) by {
        let a0 = if a < at { a } else { a + 1 };
        let b0 = if b < at { b } else { b + 1 };
        assert(q[a] == p[a0] && q[b] == p[b0]);
        assert(text_before(names_of(p)[a0], names_of(p)[b0]));
    }
    assert forall|n: Seq<char>| #[trigger] lookup(q, n) == if n == p[at].0 {
        None
    } else {
        lookup(p, n)
    } by {
        if n == p[at].0 {
            lemma_lookup_some(q, n);
            if lookup(q, n) is Some {
                let i = choose|i: int| 0 <= i < q.len() && #[trigger] q[i] == (n, lookup(q, n)->0);
                let i0 = if i < at { i } else { i + 1 };
                assert(p[i0] == q[i]);
                lemma_text_irreflexive(n);
                if i0 < at {
                    assert(text_before(names_of(p)[i0], names_of(p)[at]));
                } else {
                    assert(text_before(names_of(p)[at], names_of(p)[i0]));
                }
            }
        } else {
            assert forall|i: int| 0 <= i < p.len() && (#[trigger] p[i]).0 == n implies exists|j: int|
                0 <= j < q.len() && #[trigger] q[j] == p[i] by {
                let j = if i < at { i } else { i - 1 };
                assert(q[j] == p[i]);
            }
            assert forall|i: int| 0 <= i < q.len() && (#[trigger] q[i]).0 == n implies exists|j: int|
                0 <= j < p.len() && #[trigger] p[j] == q[i] by {
                let j = if i < at { i } else { i + 1 };
                assert(p[j] == q[i]);
            }
            lemma_same_lookup(p, q, n);
        }
    }
}

impl Clone for Labels {
    fn clone(&self) -> (r: Labels)
        ensures
            r@ == self@,
    {
        proof {
            use_type_invariant(self);
        }
        let mut entries: Vec<(String, String)> = Vec::new();
        let mut i: usize = 0;
        while i < self.entries.len()
            invariant
                i <= self.entries@.len(),
                pair_views(entries@) == pair_views(self.entries@).take(i as int),
            decreases self.entries@.len() - i,
        {
            let ghost before = entries@;
            entries.push((self.entries[i].0.clone(), self.entries[i].1.clone()));
            i += 1;
            proof {
                assert(pair_views(entries@) =~= pair_views(before).push(
                    pair_views(self.entries@)[i as int - 1],
                ));
                assert(pair_views(self.entries@).take(i as int) =~= pair_views(self.entries@).take(
                    i as int - 1,
                ).push(pair_views(self.entries@)[i as int - 1]));
            }
        }
        assert(pair_views(self.entries@).take(i as int) =~= pair_views(self.entries@));
        Labels { entries }
    }
}

impl SortKey for Labels {
    open spec fn before(a: Pairs, b: Pairs) -> bool {
        pairs_before(a, b)
    }

    proof fn irreflexive(a: Pairs) {
        lemma_pairs_irreflexive(a);
    }

    proof fn transitive(a: Pairs, b: Pairs, c: Pairs) {
        lemma_pairs_transitive(a, b, c);
    }

    proof fn total(a: Pairs, b: Pairs) {
        lemma_pairs_total(a, b);
    }

    fn precedes(&self, other: &Self) -> (r: bool) {
        let ghost p = self@;
        let ghost q = other@;
        let mut i: usize = 0;
        while i < self.entries.len() && i < other.entries.len()
            invariant
                p == self@,
                q == other@,
                p.len() == self.entries@.len(),
                q.len() == other.entries@.len(),
                i <= p.len(),
                i <= q.len(),
                p.take(i as int) == q.take(i as int),
            decreases p.len() - i,
        {
            proof {
                lemma_pairs_common_prefix(p, q, i as int);
                assert(p.skip(i as int)[0] == p[i as int]);
                assert(q.skip(i as int)[0] == q[i as int]);
            }
            let a = &self.entries[i];
            let b = &other.entries[i];
            if !same_text(a.0.as_str(), b.0.as_str()) {
                return text_precedes(a.0.as_str(), b.0.as_str());
            }
            if !same_text(a.1.as_str(), b.1.as_str()) {
                return text_precedes(a.1.as_str(), b.1.as_str());
            }
            i += 1;
            assert(p.take(i as int) =~= p.take(i as int - 1).push(p[i as int - 1]));
            assert(q.take(i as int) =~= q.take(i as int - 1).push(q[i as int - 1]));
        }
        proof {
            lemma_pairs_common_prefix(p, q, i as int);
        }
        i < other.entries.len()
    }

    fn same(&self, other: &Self) -> (r: bool) {
        assert(self@.len() == self.entries@.len());
        assert(other@.len() == other.entries@.len());
        if self.entries.len() != other.entries.len() {
            return false;
        }
        let ghost p = self@;
        let ghost q = other@;
        let mut i: usize = 0;
        while i < self.entries.len()
            invariant
                p == self@,
                q == other@,
                p.len() == self.entries@.len(),
                q.len() == other.entries@.len(),
                p.len() == q.len(),
                i <= p.len(),
                forall|j: int| 0 <= j < i ==> #[trigger] p[j] == q[j],
            decreases p.len() - i,
        {
            let a = &self.entries[i];
            let b = &other.entries[i];
            if !same_text(a.0.as_str(), b.0.as_str()) || !same_text(a.1.as_str(), b.1.as_str()) {
                assert(p[i as int] != q[i as int]);
                return false;
            }
            i += 1;
        }
        assert(p =~= q);
        true
    }
}

} // verus!
