//! Ordered keys, and grouping by an ordered key.

use vstd::prelude::*;
use crate::text::{
    lemma_text_irreflexive, lemma_text_total, lemma_text_transitive, same_text, text_before,
    text_precedes,
};

verus! {

/// A key with a total order on its view.
pub trait SortKey: View {
    /// Whether `a` comes before `b`.
    spec fn before(a: Self::V, b: Self::V) -> bool;

    /// No key comes before itself.
    proof fn irreflexive(a: Self::V)
        ensures
            !Self::before(a, a),
    ;

    /// The order is transitive.
    proof fn transitive(a: Self::V, b: Self::V, c: Self::V)
        requires
            Self::before(a, b),
            Self::before(b, c),
        ensures
            Self::before(a, c),
    ;

    /// Of two different keys one comes before the other.
    proof fn total(a: Self::V, b: Self::V)
        ensures
            a == b || Self::before(a, b) || Self::before(b, a),
    ;

    /// Whether this key comes before the other.
    fn precedes(&self, other: &Self) -> (r: bool)
        ensures
            r == Self::before(self@, other@),
    ;

    /// Whether the two keys are the same.
    fn same(&self, other: &Self) -> (r: bool)
        ensures
            r == (self@ == other@),
    ;
}

impl SortKey for String {
    open spec fn before(a: Seq<char>, b: Seq<char>) -> bool {
        text_before(a, b)
    }

    proof fn irreflexive(a: Seq<char>) {
        lemma_text_irreflexive(a);
    }

    proof fn transitive(a: Seq<char>, b: Seq<char>, c: Seq<char>) {
        lemma_text_transitive(a, b, c);
    }

    proof fn total(a: Seq<char>, b: Seq<char>) {
        lemma_text_total(a, b);
    }

    fn precedes(&self, other: &Self) -> (r: bool) {
        text_precedes(self.as_str(), other.as_str())
    }

    fn same(&self, other: &Self) -> (r: bool) {
        same_text(self.as_str(), other.as_str())
    }
}

impl SortKey for i64 {
    open spec fn before(a: i64, b: i64) -> bool {
        a < b
    }

    proof fn irreflexive(a: i64) {
    }

    proof fn transitive(a: i64, b: i64, c: i64) {
    }

    proof fn total(a: i64, b: i64) {
    }

    fn precedes(&self, other: &Self) -> (r: bool) {
        *self < *other
    }

    fn same(&self, other: &Self) -> (r: bool) {
        *self == *other
    }
}

impl SortKey for u64 {
    open spec fn before(a: u64, b: u64) -> bool {
        a < b
    }

    proof fn irreflexive(a: u64) {
    }

    proof fn transitive(a: u64, b: u64, c: u64) {
    }

    proof fn total(a: u64, b: u64) {
    }

    fn precedes(&self, other: &Self) -> (r: bool) {
        *self < *other
    }

    fn same(&self, other: &Self) -> (r: bool) {
        *self == *other
    }
}

/// Whether the keys are strictly increasing.
pub open spec fn increasing<K: SortKey>(keys: Seq<K::V>) -> bool {
    forall|i: int, j: int| 0 <= i < j < keys.len() ==> K::before(#[trigger] keys[i], #[trigger] keys[j])
}

/// The items filed under `key`, in the order they came.
pub open spec fn items_under<V, T>(input: Seq<(V, T)>, key: V) -> Seq<T>
    decreases input.len(),
{
    if input.len() == 0 {
        Seq::empty()
    } else if input.last().0 == key {
        items_under(input.drop_last(), key).push(input.last().1)
    } else {
        items_under(input.drop_last(), key)
    }
}

/// Whether some item is filed under `key`.
pub open spec fn has_key<V, T>(input: Seq<(V, T)>, key: V) -> bool {
    exists|i: int| 0 <= i < input.len() && (#[trigger] input[i]).0 == key
}

/// `groups` is `input` gathered by key: one group for each key that occurs, in
/// key order, holding that key's items in the order they came.
pub open spec fn gathered<K: SortKey, T>(
    input: Seq<(K::V, T)>,
    keys: Seq<K::V>,
    items: Seq<Seq<T>>,
) -> bool {
    &&& keys.len() == items.len()
    &&& increasing::<K>(keys)
    &&& forall|i: int|
        0 <= i < keys.len() ==> #[trigger] items[i] == items_under(input, keys[i]) && has_key(
            input,
            keys[i],
        )
    &&& forall|i: int| 0 <= i < input.len() ==> keys.contains((#[trigger] input[i]).0)
}

/// A key with at least one item has a group that is not empty; one with none
/// has an empty one.
pub proof fn lemma_items_under_empty<V, T>(input: Seq<(V, T)>, key: V)
    ensures
        has_key(input, key) <==> items_under(input, key).len() > 0,
    decreases input.len(),
{
    if input.len() > 0 {
        lemma_items_under_empty(input.drop_last(), key);
        if has_key(input, key) {
            let i = choose|i: int| 0 <= i < input.len() && (#[trigger] input[i]).0 == key;
            if i < input.len() - 1 {
                assert(input.drop_last()[i].0 == key);
            }
        }
        if has_key(input.drop_last(), key) {
            let i = choose|i: int|
                0 <= i < input.drop_last().len() && (#[trigger] input.drop_last()[i]).0 == key;
            assert(input[i].0 == key);
        }
        if input.last().0 == key {
            assert(input[input.len() - 1].0 == key);
        }
    }
}

/// Every item is among those filed under its key.
pub proof fn lemma_item_is_under<V, T>(input: Seq<(V, T)>, i: int)
    requires
        0 <= i < input.len(),
    ensures
        items_under(input, input[i].0).contains(input[i].1),
    decreases input.len(),
{
    let rest = items_under(input.drop_last(), input[i].0);
    let all = items_under(input, input[i].0);
    if i < input.len() - 1 {
        lemma_item_is_under(input.drop_last(), i);
        let w = choose|w: int| 0 <= w < rest.len() && rest[w] == input[i].1;
        assert(all[w] == input[i].1);
    } else {
        assert(all[rest.len() as int] == input[i].1);
    }
}

/// Every item filed under a key stands somewhere in the input.
pub proof fn lemma_item_comes_from<V, T>(input: Seq<(V, T)>, key: V, j: int)
    requires
        0 <= j < items_under(input, key).len(),
    ensures
        exists|i: int|
            0 <= i < input.len() && #[trigger] input[i] == (key, items_under(input, key)[j]),
    decreases input.len(),
{
    let rest = items_under(input.drop_last(), key);
    if j < rest.len() {
        lemma_item_comes_from(input.drop_last(), key, j);
        let i = choose|i: int|
            0 <= i < input.drop_last().len() && #[trigger] input.drop_last()[i] == (key, rest[j]);
        assert(input[i] == (key, rest[j]));
        assert(items_under(input, key)[j] == rest[j]);
    } else {
        assert(input[input.len() - 1] == (key, items_under(input, key)[j]));
    }
}

/// Two increasing lists of the same keys are the same list.
pub proof fn lemma_increasing_unique<K: SortKey>(a: Seq<K::V>, b: Seq<K::V>)
    requires
        increasing::<K>(a),
        increasing::<K>(b),
        forall|i: int| 0 <= i < a.len() ==> b.contains(#[trigger] a[i]),
        forall|i: int| 0 <= i < b.len() ==> a.contains(#[trigger] b[i]),
    ensures
        a == b,
    decreases a.len(),
{
    if a.len() == 0 {
        if b.len() > 0 {
            assert(a.contains(b[0]));
        }
        assert(a =~= b);
    } else {
        assert(b.contains(a[0]));
        let x = a.last();
        let y = b.last();
        if x != y {
            assert(a[a.len() - 1] == x && b[b.len() - 1] == y);
            assert(b.contains(x));
            assert(a.contains(y));
            let p = choose|p: int| 0 <= p < b.len() && b[p] == x;
            let q = choose|q: int| 0 <= q < a.len() && a[q] == y;
            assert(K::before(b[p], b[b.len() - 1]));
            assert(K::before(a[q], a[a.len() - 1]));
            K::transitive(x, y, x);
            K::irreflexive(x);
        }
        let a0 = a.drop_last();
        let b0 = b.drop_last();
        assert forall|i: int| 0 <= i < a0.len() implies b0.contains(#[trigger] a0[i]) by {
            assert(a0[i] == a[i]);
            assert(b.contains(a[i]));
            let p = choose|p: int| 0 <= p < b.len() && b[p] == a[i];
            assert(K::before(a[i], a[a.len() - 1]));
            K::irreflexive(x);
            assert(b0[p] == a0[i]);
        }
        assert forall|i: int| 0 <= i < b0.len() implies a0.contains(#[trigger] b0[i]) by {
            assert(b0[i] == b[i]);
            assert(a.contains(b[i]));
            let p = choose|p: int| 0 <= p < a.len() && a[p] == b[i];
            assert(K::before(b[i], b[b.len() - 1]));
            K::irreflexive(x);
            assert(a0[p] == b0[i]);
        }
        lemma_increasing_unique::<K>(a0, b0);
        assert(a =~= a0.push(x));
        assert(b =~= b0.push(y));
    }
}

/// Items gathered by key, in key order.
pub struct Groups<K: SortKey, T> {
    pub keys: Vec<K>,
    pub items: Vec<Vec<T>>,
    pub input: Ghost<Seq<(K::V, T)>>,
}

impl<K: SortKey, T> Groups<K, T> {
    /// The keys, in order.
    pub open spec fn key_views(self) -> Seq<K::V> {
        Seq::new(self.keys@.len(), |i: int| self.keys@[i]@)
    }

    /// The items of each group.
    pub open spec fn item_views(self) -> Seq<Seq<T>> {
        Seq::new(self.items@.len(), |i: int| self.items@[i]@)
    }

    /// The groups are those of the input so far.
    pub open spec fn wf(self) -> bool {
        gathered::<K, T>(self.input@, self.key_views(), self.item_views())
    }

    /// No groups.
    pub fn new() -> (r: Self)
        ensures
            r.wf(),
            r.input@ == Seq::<(K::V, T)>::empty(),
    {
        let r = Groups { keys: Vec::new(), items: Vec::new(), input: Ghost(Seq::empty()) };
        r
    }

    /// File `item` under `key`.
    pub fn push(&mut self, key: K, item: T)
        requires
            old(self).wf(),
        ensures
            final(self).wf(),
            final(self).input@ == old(self).input@.push((key@, item)),
    {
        let ghost input0 = self.input@;
        let ghost input1 = self.input@.push((key@, item));
        let ghost keys0 = self.key_views();
        let ghost items0 = self.item_views();
        let n: usize = self.keys.len();
        let mut i: usize = 0;
        let mut end: usize = n;
        while i < end
            invariant
                self.wf(),
                *self == *old(self),
                keys0 == self.key_views(),
                n == self.keys@.len(),
                i <= end <= n,
                forall|j: int| 0 <= j < i ==> K::before(#[trigger] keys0[j], key@),
                forall|j: int| end <= j < n ==> !K::before(#[trigger] keys0[j], key@),
            decreases end - i,
        {
            let mid: usize = i + (end - i) / 2;
            if self.keys[mid].precedes(&key) {
                proof {
                    assert forall|j: int| 0 <= j < mid + 1 implies K::before(
                        #[trigger] keys0[j],
                        key@,
                    ) by {
                        if j < mid {
                            assert(K::before(keys0[j], keys0[mid as int]));
                            K::transitive(keys0[j], keys0[mid as int], key@);
                        }
                    }
                }
                i = mid + 1;
            } else {
                proof {
                    assert forall|j: int| mid <= j < n implies !K::before(
                        #[trigger] keys0[j],
                        key@,
                    ) by {
                        if j > mid && K::before(keys0[j], key@) {
                            assert(K::before(keys0[mid as int], keys0[j]));
                            K::transitive(keys0[mid as int], keys0[j], key@);
                        }
                    }
                }
                end = mid;
            }
        }
        proof {
            assert(input1.drop_last() =~= input0);
            assert forall|k: K::V| k != key@ implies items_under(input1, k) == items_under(
                input0,
                k,
            ) by {}
            assert forall|k: K::V| has_key(input0, k) implies has_key(input1, k) by {
                let w = choose|w: int| 0 <= w < input0.len() && (#[trigger] input0[w]).0 == k;
                assert(input1[w].0 == k);
            }
            assert(input1[input0.len() as int].0 == key@);
        }
        if i < n && self.keys[i].same(&key) {
            let ghost group0 = self.items@[i as int]@;
            self.items[i].push(item);
            self.input = Ghost(input1);
            proof {
                assert(self.key_views() =~= keys0);
                assert(self.item_views() =~= items0.update(i as int, group0.push(item)));
                assert(keys0[i as int] == key@);
                assert forall|j: int| 0 <= j < keys0.len() implies #[trigger] self.item_views()[j]
                    == items_under(input1, keys0[j]) && has_key(input1, keys0[j]) by {
                    assert(items0[j] == items_under(input0, keys0[j]));
                    if j < i {
                        assert(K::before(keys0[j], keys0[i as int]));
                        K::irreflexive(key@);
                    } else if j > i {
                        assert(K::before(keys0[i as int], keys0[j]));
                        K::irreflexive(key@);
                    }
                }
                assert forall|w: int| 0 <= w < input1.len() implies keys0.contains(
                    (#[trigger] input1[w]).0,
                ) by {
                    if w < input0.len() {
                        assert(input0[w] == input1[w]);
                    } else {
                        assert(keys0[i as int] == key@);
                    }
                }
            }
        } else {
            let ghost k = key@;
            let mut group: Vec<T> = Vec::new();
            group.push(item);
            self.keys.insert(i, key);
            self.items.insert(i, group);
            self.input = Ghost(input1);
            proof {
                let keys1 = self.key_views();
                let items1 = self.item_views();
                assert(keys1 =~= keys0.insert(i as int, k));
                assert(items1 =~= items0.insert(i as int, seq![item]));
                if i < n {
                    K::total(k, keys0[i as int]);
                    assert(K::before(k, keys0[i as int]));
                }
                assert forall|j: int| i <= j < keys0.len() implies K::before(
                    k,
                    #[trigger] keys0[j],
                ) by {
                    if j > i {
                        assert(K::before(keys0[i as int], keys0[j]));
                        K::transitive(k, keys0[i as int], keys0[j]);
                    }
                }
                assert(!keys0.contains(k)) by {
                    K::irreflexive(k);
                    if keys0.contains(k) {
                        let w = choose|w: int| 0 <= w < keys0.len() && keys0[w] == k;
                        if w < i {
                            assert(K::before(keys0[w], k));
                        } else {
                            assert(K::before(k, keys0[w]));
                        }
                    }
                }
                assert(!has_key(input0, k)) by {
                    if has_key(input0, k) {
                        let w = choose|w: int|
                            0 <= w < input0.len() && (#[trigger] input0[w]).0 == k;
                        assert(keys0.contains(input0[w].0));
                    }
                }
                lemma_items_under_empty(input0, k);
                assert(items_under(input0, k) =~= Seq::<T>::empty());
                assert(items_under(input1, k) =~= seq![item]);
                assert(increasing::<K>(keys1)) by {
                    assert forall|a: int, b: int| 0 <= a < b < keys1.len() implies K::before(
                        #[trigger] keys1[a],
                        #[trigger] keys1[b],
                    ) by {
                        let a0 = if a < i { a } else { a - 1 };
                        let b0 = if b < i { b } else { b - 1 };
                        if a != i && b != i {
                            assert(keys1[a] == keys0[a0]);
                            assert(keys1[b] == keys0[b0]);
                        } else if a == i {
                            assert(keys1[b] == keys0[b0]);
                        } else {
                            assert(keys1[a] == keys0[a0]);
                        }
                    }
                }
                assert forall|j: int| 0 <= j < keys1.len() implies #[trigger] items1[j]
                    == items_under(input1, keys1[j]) && has_key(input1, keys1[j]) by {
                    if j != i {
                        let j0 = if j < i { j } else { j - 1 };
                        assert(keys1[j] == keys0[j0]);
                        assert(items1[j] == items0[j0]);
                        assert(keys0.contains(keys0[j0]));
                        assert(keys1[j] != k);
                    }
                }
                assert forall|w: int| 0 <= w < input1.len() implies keys1.contains(
                    (#[trigger] input1[w]).0,
                ) by {
                    if w < input0.len() {
                        assert(keys0.contains(input0[w].0));
                        let c = choose|c: int| 0 <= c < keys0.len() && keys0[c] == input0[w].0;
                        let c1 = if c < i { c } else { c + 1 };
                        assert(keys1[c1] == keys0[c]);
                    } else {
                        assert(keys1[i as int] == k);
                    }
                }
            }
        }
    }
}

// ---------- stable sorting ----------

/// The keys and items of a list.
pub open spec fn keyed<K: SortKey, T>(s: Seq<(K, T)>) -> Seq<(K::V, T)> {
    s.map_values(|e: (K, T)| (e.0@, e.1))
}

/// Whether no key comes before one that stands ahead of it.
pub open spec fn in_key_order<K: SortKey, T>(s: Seq<(K::V, T)>) -> bool {
    forall|i: int, j: int|
        0 <= i < j < s.len() ==> !K::before((#[trigger] s[j]).0, (#[trigger] s[i]).0)
}

/// `out` is `input` sorted by key, items of equal keys in the order they came.
pub open spec fn stably_sorted<K: SortKey, T>(input: Seq<(K::V, T)>, out: Seq<(K::V, T)>) -> bool {
    &&& out.len() == input.len()
    &&& in_key_order::<K, T>(out)
    &&& forall|k: K::V| #[trigger] items_under(out, k) == items_under(input, k)
}

/// The items under a key of two lists joined are those of the first, then those
/// of the second.
pub proof fn lemma_items_under_join<V, T>(a: Seq<(V, T)>, b: Seq<(V, T)>, k: V)
    ensures
        items_under(a + b, k) == items_under(a, k) + items_under(b, k),
    decreases b.len(),
{
    if b.len() == 0 {
        assert(a + b =~= a);
        assert(items_under(a, k) + items_under(b, k) =~= items_under(a, k));
    } else {
        lemma_items_under_join(a, b.drop_last(), k);
        assert((a + b).drop_last() =~= a + b.drop_last());
        assert((a + b).last() == b.last());
        assert(items_under(a + b, k) =~= items_under(a, k) + items_under(b, k));
    }
}

proof fn lemma_items_under_none<V, T>(s: Seq<(V, T)>, k: V)
    requires
        forall|i: int| 0 <= i < s.len() ==> (#[trigger] s[i]).0 != k,
    ensures
        items_under(s, k) == Seq::<T>::empty(),
{
    lemma_items_under_empty(s, k);
    assert(items_under(s, k) =~= Seq::<T>::empty());
}

/// Sort by key, keeping the order of items whose keys are equal.
pub fn sort_by_key<K: SortKey, T>(v: Vec<(K, T)>) -> (r: Vec<(K, T)>)
    ensures
        stably_sorted::<K, T>(keyed(v@), keyed(r@)),
    decreases v@.len(),
{
    let n: usize = v.len();
    if n < 2 {
        return v;
    }
    let ghost whole = keyed(v@);
    let mut left = v;
    let right = left.split_off(n / 2);
    let ghost l = keyed(left@);
    let ghost r = keyed(right@);
    assert(whole =~= l + r);
    let left = sort_by_key(left);
    let right = sort_by_key(right);
    let merged = merge(left, right);
    proof {
        let out = keyed(merged@);
        assert forall|k: K::V| #[trigger] items_under(out, k) == items_under(whole, k) by {
            lemma_items_under_join(l, r, k);
            lemma_items_under_join(keyed(left@), keyed(right@), k);
        }
    }
    merged
}

fn merge<K: SortKey, T>(left: Vec<(K, T)>, right: Vec<(K, T)>) -> (r: Vec<(K, T)>)
    requires
        in_key_order::<K, T>(keyed(left@)),
        in_key_order::<K, T>(keyed(right@)),
    ensures
        stably_sorted::<K, T>(keyed(left@) + keyed(right@), keyed(r@)),
{
    let ghost l0 = keyed(left@);
    let ghost r0 = keyed(right@);
    let mut left = left;
    let mut right = right;
    let mut back: Vec<(K, T)> = Vec::new();
    assert(keyed(back@).reverse() =~= Seq::empty());
    assert forall|k: K::V| #[trigger] items_under(l0 + r0, k) == items_under(l0, k) + items_under(
        r0,
        k,
    ) + items_under(Seq::<(K::V, T)>::empty(), k) by {
        lemma_items_under_join(l0, r0, k);
        assert(items_under(l0, k) + items_under(r0, k) + items_under(
            Seq::<(K::V, T)>::empty(),
            k,
        ) =~= items_under(l0, k) + items_under(r0, k));
    }
    while left.len() > 0 || right.len() > 0
        invariant
            in_key_order::<K, T>(keyed(left@)),
            in_key_order::<K, T>(keyed(right@)),
            in_key_order::<K, T>(keyed(back@).reverse()),
            left@.len() + right@.len() + back@.len() == l0.len() + r0.len(),
            forall|i: int, j: int|
                0 <= i < left@.len() && 0 <= j < back@.len() ==> !K::before(
                    (#[trigger] back@[j]).0@,
                    (#[trigger] left@[i]).0@,
                ),
            forall|i: int, j: int|
                0 <= i < right@.len() && 0 <= j < back@.len() ==> !K::before(
                    (#[trigger] back@[j]).0@,
                    (#[trigger] right@[i]).0@,
                ),
            forall|k: K::V|
                #[trigger] items_under(l0 + r0, k) == items_under(keyed(left@), k) + items_under(
                    keyed(right@),
                    k,
                ) + items_under(keyed(back@).reverse(), k),
        decreases left@.len() + right@.len(),
    {
        let ghost l1 = keyed(left@);
        let ghost r1 = keyed(right@);
        let ghost b1 = keyed(back@).reverse();
        let ghost lv = left@;
        let ghost rv = right@;
        let take_left: bool = if right.len() == 0 {
            true
        } else if left.len() == 0 {
            false
        } else {
            right[right.len() - 1].0.precedes(&left[left.len() - 1].0)
        };
        if take_left {
            let e = left.pop().unwrap();
            let ghost x = (e.0@, e.1);
            proof {
                assert(l1.last() == x);
                assert(keyed(left@) =~= l1.drop_last());
                assert forall|k: K::V| #[trigger] items_under(l0 + r0, k) == items_under(
                    keyed(left@),
                    k,
                ) + items_under(r1, k) + items_under(seq![x] + b1, k) by {
                    lemma_items_under_join(seq![x], b1, k);
                    lemma_single(x, k);
                    if k == x.0 {
                        assert forall|i: int| 0 <= i < r1.len() implies (#[trigger] r1[i]).0
                            != k by {
                            K::irreflexive(k);
                            assert(K::before(r1[r1.len() - 1].0, k));
                            if i < r1.len() - 1 {
                                assert(!K::before(r1[r1.len() - 1].0, r1[i].0));
                            }
                        }
                        lemma_items_under_none(r1, k);
                    }
                    assert(items_under(keyed(left@), k) + items_under(r1, k) + items_under(
                        seq![x] + b1,
                        k,
                    ) =~= items_under(l1, k) + items_under(r1, k) + items_under(b1, k));
                }
                assert forall|i: int| 0 <= i < rv.len() implies !K::before(
                    x.0,
                    (#[trigger] rv[i]).0@,
                ) by {
                    K::irreflexive(x.0);
                    let last = r1[r1.len() - 1].0;
                    assert(K::before(last, x.0));
                    assert(r1[i].0 == rv[i].0@);
                    if K::before(x.0, rv[i].0@) {
                        K::transitive(last, x.0, rv[i].0@);
                        if i < r1.len() - 1 {
                            assert(!K::before(r1[r1.len() - 1].0, r1[i].0));
                        }
                        K::irreflexive(last);
                    }
                }
                assert forall|i: int| 0 <= i < left@.len() implies !K::before(
                    x.0,
                    (#[trigger] left@[i]).0@,
                ) by {
                    assert(!K::before(l1[l1.len() - 1].0, l1[i].0));
                }
                assert forall|i: int, j: int| 0 <= i < j < (seq![x] + b1).len() implies !K::before(
                    (#[trigger] (seq![x] + b1)[j]).0,
                    (#[trigger] (seq![x] + b1)[i]).0,
                ) by {
                    if i == 0 {
                        let p = back@.len() - j;
                        assert(b1[j - 1] == keyed(back@)[p]);
                        assert(!K::before(back@[p].0@, lv[lv.len() - 1].0@));
                    } else {
                        assert(!K::before(b1[j - 1].0, b1[i - 1].0));
                    }
                }
            }
            let ghost back1 = back@;
            back.push(e);
            proof {
                assert(keyed(back@) =~= keyed(back1).push(x));
                assert(keyed(back@).reverse() =~= seq![x] + b1);
                assert forall|i: int, j: int|
                    0 <= i < left@.len() && 0 <= j < back@.len() implies !K::before(
                    (#[trigger] back@[j]).0@,
                    (#[trigger] left@[i]).0@,
                ) by {
                    assert(left@[i] == lv[i]);
                    if j < back1.len() {
                        assert(back@[j] == back1[j]);
                    }
                }
            }
        } else {
            let e = right.pop().unwrap();
            let ghost x = (e.0@, e.1);
            proof {
                assert(r1.last() == x);
                assert(keyed(right@) =~= r1.drop_last());
                assert forall|k: K::V| #[trigger] items_under(l0 + r0, k) == items_under(
                    l1,
                    k,
                ) + items_under(keyed(right@), k) + items_under(seq![x] + b1, k) by {
                    lemma_items_under_join(seq![x], b1, k);
                    lemma_single(x, k);
                    assert(items_under(l1, k) + items_under(keyed(right@), k) + items_under(
                        seq![x] + b1,
                        k,
                    ) =~= items_under(l1, k) + items_under(r1, k) + items_under(b1, k));
                }
                assert forall|i: int| 0 <= i < lv.len() implies !K::before(
                    x.0,
                    (#[trigger] lv[i]).0@,
                ) by {
                    let last = l1[l1.len() - 1].0;
                    assert(!K::before(x.0, last));
                    assert(l1[i].0 == lv[i].0@);
                    if K::before(x.0, lv[i].0@) {
                        if i < l1.len() - 1 {
                            assert(!K::before(l1[l1.len() - 1].0, l1[i].0));
                            K::total(lv[i].0@, last);
                            if K::before(lv[i].0@, last) {
                                K::transitive(x.0, lv[i].0@, last);
                            }
                        }
                    }
                }
                assert forall|i: int| 0 <= i < right@.len() implies !K::before(
                    x.0,
                    (#[trigger] right@[i]).0@,
                ) by {
                    assert(!K::before(r1[r1.len() - 1].0, r1[i].0));
                }
                assert forall|i: int, j: int| 0 <= i < j < (seq![x] + b1).len() implies !K::before(
                    (#[trigger] (seq![x] + b1)[j]).0,
                    (#[trigger] (seq![x] + b1)[i]).0,
                ) by {
                    if i == 0 {
                        let p = back@.len() - j;
                        assert(b1[j - 1] == keyed(back@)[p]);
                        assert(!K::before(back@[p].0@, rv[rv.len() - 1].0@));
                    } else {
                        assert(!K::before(b1[j - 1].0, b1[i - 1].0));
                    }
                }
            }
            let ghost back1 = back@;
            back.push(e);
            proof {
                assert(keyed(back@) =~= keyed(back1).push(x));
                assert(keyed(back@).reverse() =~= seq![x] + b1);
                assert forall|i: int, j: int|
                    0 <= i < right@.len() && 0 <= j < back@.len() implies !K::before(
                    (#[trigger] back@[j]).0@,
                    (#[trigger] right@[i]).0@,
                ) by {
                    assert(right@[i] == rv[i]);
                    if j < back1.len() {
                        assert(back@[j] == back1[j]);
                    }
                }
            }
        }
    }
    let ghost b = keyed(back@).reverse();
    proof {
        assert forall|k: K::V| #[trigger] items_under(b, k) == items_under(l0 + r0, k) by {
            assert(items_under(l0 + r0, k) == items_under(keyed(left@), k) + items_under(
                keyed(right@),
                k,
            ) + items_under(b, k));
            assert(items_under(keyed(left@), k) =~= Seq::<T>::empty());
            assert(items_under(keyed(right@), k) =~= Seq::<T>::empty());
            assert(items_under(b, k) =~= items_under(l0 + r0, k));
        }
    }
    let mut out: Vec<(K, T)> = Vec::new();
    assert(keyed(back@).reverse() =~= b);
    while back.len() > 0
        invariant
            keyed(out@) + keyed(back@).reverse() == b,
        decreases back@.len(),
    {
        let ghost o1 = out@;
        let ghost b1 = back@;
        let e = back.pop().unwrap();
        out.push(e);
        proof {
            assert(keyed(out@) =~= keyed(o1).push((e.0@, e.1)));
            assert(keyed(b1).reverse() =~= seq![(e.0@, e.1)] + keyed(back@).reverse());
            assert(keyed(out@) + keyed(back@).reverse() =~= keyed(o1) + keyed(b1).reverse());
        }
    }
    assert(keyed(out@) =~= b);
    out
}

proof fn lemma_single<V, T>(x: (V, T), k: V)
    ensures
        items_under(seq![x], k) == if x.0 == k {
            seq![x.1]
        } else {
            Seq::<T>::empty()
        },
{
    assert(seq![x].drop_last() =~= Seq::empty());
    assert(items_under(seq![x].drop_last(), k) =~= Seq::<T>::empty());
    if x.0 == k {
        assert(items_under(seq![x], k) =~= seq![x.1]);
    }
}

// ---------- groups and sorting as functions of the input ----------

/// Whether `keys` are the keys that occur in the input, in key order.
pub open spec fn are_keys_of<K: SortKey, T>(input: Seq<(K::V, T)>, keys: Seq<K::V>) -> bool {
    &&& increasing::<K>(keys)
    &&& forall|i: int| 0 <= i < keys.len() ==> has_key(input, #[trigger] keys[i])
    &&& forall|i: int| 0 <= i < input.len() ==> keys.contains((#[trigger] input[i]).0)
}

/// The keys that occur in the input, each once, in key order. There is only one
/// such list.
pub open spec fn keys_of<K: SortKey, T>(input: Seq<(K::V, T)>) -> Seq<K::V> {
    choose|keys: Seq<K::V>| are_keys_of::<K, T>(input, keys)
}

/// A list of the keys that occur, in key order, is the list of them.
pub proof fn lemma_keys_of<K: SortKey, T>(input: Seq<(K::V, T)>, keys: Seq<K::V>)
    requires
        are_keys_of::<K, T>(input, keys),
    ensures
        keys_of::<K, T>(input) == keys,
{
    let other = keys_of::<K, T>(input);
    assert(are_keys_of::<K, T>(input, other));
    assert forall|i: int| 0 <= i < keys.len() implies other.contains(#[trigger] keys[i]) by {
        let w = choose|w: int| 0 <= w < input.len() && (#[trigger] input[w]).0 == keys[i];
        assert(other.contains(input[w].0));
    }
    assert forall|i: int| 0 <= i < other.len() implies keys.contains(#[trigger] other[i]) by {
        let w = choose|w: int| 0 <= w < input.len() && (#[trigger] input[w]).0 == other[i];
        assert(keys.contains(input[w].0));
    }
    lemma_increasing_unique::<K>(keys, other);
}

/// Every input has a list of the keys that occur in it.
pub proof fn lemma_keys_of_exists<K: SortKey, T>(input: Seq<(K::V, T)>)
    ensures
        are_keys_of::<K, T>(input, keys_of::<K, T>(input)),
    decreases input.len(),
{
    if input.len() == 0 {
        assert(are_keys_of::<K, T>(input, Seq::empty()));
    } else {
        let rest = input.drop_last();
        let x = input.last().0;
        lemma_keys_of_exists::<K, T>(rest);
        let s = keys_of::<K, T>(rest);
        assert forall|k: K::V| has_key(rest, k) implies #[trigger] has_key(input, k) by {
            let w = choose|w: int| 0 <= w < rest.len() && (#[trigger] rest[w]).0 == k;
            assert(input[w].0 == k);
        }
        assert(input[input.len() - 1].0 == x);
        assert(has_key(input, x));
        if s.contains(x) {
            assert forall|i: int| 0 <= i < input.len() implies s.contains(
                (#[trigger] input[i]).0,
            ) by {
                if i < rest.len() {
                    assert(s.contains(rest[i].0));
                }
            }
            assert(are_keys_of::<K, T>(input, s));
        } else {
            let listed = s.map_values(|k: K::V| (k, ()));
            assert forall|i: int, j: int| 0 <= i < j < listed.len() implies !K::before(
                (#[trigger] listed[j]).0,
                (#[trigger] listed[i]).0,
            ) by {
                assert(K::before(s[i], s[j]));
                if K::before(s[j], s[i]) {
                    K::transitive(s[i], s[j], s[i]);
                    K::irreflexive(s[i]);
                }
            }
            let p = lemma_insertion_place::<K, ()>(listed, x);
            let out = s.insert(p, x);
            assert forall|i: int, j: int| 0 <= i < j < out.len() implies K::before(
                #[trigger] out[i],
                #[trigger] out[j],
            ) by {
                let i0 = if i < p { i } else { i - 1 };
                let j0 = if j < p { j } else { j - 1 };
                if i == p {
                    assert(listed[j0].0 == out[j]);
                } else if j == p {
                    assert(listed[i0].0 == out[i]);
                    assert(s[i0] != x);
                    K::total(s[i0], x);
                } else {
                    assert(K::before(s[i0], s[j0]));
                }
            }
            assert forall|i: int| 0 <= i < out.len() implies has_key(input, #[trigger] out[i]) by {
                if i != p {
                    assert(has_key(rest, s[if i < p { i } else { i - 1 }]));
                }
            }
            assert forall|i: int| 0 <= i < input.len() implies out.contains(
                (#[trigger] input[i]).0,
            ) by {
                if i < rest.len() {
                    assert(s.contains(rest[i].0));
                    let j = choose|j: int| 0 <= j < s.len() && s[j] == rest[i].0;
                    assert(out[if j < p { j } else { j + 1 }] == input[i].0);
                } else {
                    assert(out[p] == x);
                }
            }
            assert(are_keys_of::<K, T>(input, out));
        }
    }
}

/// What is gathered from an input are the keys that occur in it and the items
/// under each of them.
pub proof fn lemma_gathered<K: SortKey, T>(
    input: Seq<(K::V, T)>,
    keys: Seq<K::V>,
    items: Seq<Seq<T>>,
)
    requires
        gathered::<K, T>(input, keys, items),
    ensures
        keys == keys_of::<K, T>(input),
        items.len() == keys.len(),
        forall|i: int| 0 <= i < keys.len() ==> #[trigger] items[i] == items_under(input, keys[i]),
        forall|i: int| 0 <= i < keys.len() ==> (#[trigger] items[i]).len() > 0,
{
    assert forall|i: int| 0 <= i < keys.len() implies has_key(input, #[trigger] keys[i]) by {
        assert(items[i] == items_under(input, keys[i]));
    }
    lemma_keys_of::<K, T>(input, keys);
    assert forall|i: int| 0 <= i < keys.len() implies (#[trigger] items[i]).len() > 0 by {
        lemma_items_under_empty(input, keys[i]);
    }
}

/// The input with each item mapped.
pub open spec fn with_items<V, T, U>(input: Seq<(V, T)>, f: spec_fn(T) -> U) -> Seq<(V, U)> {
    input.map_values(|e: (V, T)| (e.0, f(e.1)))
}

/// Mapping the items maps what stands under each key.
pub proof fn lemma_items_under_mapped<V, T, U>(input: Seq<(V, T)>, f: spec_fn(T) -> U, k: V)
    ensures
        items_under(with_items(input, f), k) == items_under(input, k).map_values(f),
    decreases input.len(),
{
    let mapped = with_items(input, f);
    if input.len() == 0 {
        assert(items_under(mapped, k) =~= items_under(input, k).map_values(f));
    } else {
        lemma_items_under_mapped(input.drop_last(), f, k);
        assert(mapped.drop_last() =~= with_items(input.drop_last(), f));
        assert(mapped.last() == (input.last().0, f(input.last().1)));
        assert(items_under(mapped, k) =~= items_under(input, k).map_values(f));
    }
}

/// Mapping the items leaves the keys as they are.
pub proof fn lemma_keys_of_mapped<K: SortKey, T, U>(input: Seq<(K::V, T)>, f: spec_fn(T) -> U)
    requires
        are_keys_of::<K, T>(input, keys_of::<K, T>(input)),
    ensures
        keys_of::<K, U>(with_items(input, f)) == keys_of::<K, T>(input),
{
    let mapped = with_items(input, f);
    let keys = keys_of::<K, T>(input);
    assert forall|i: int| 0 <= i < keys.len() implies has_key(mapped, #[trigger] keys[i]) by {
        let w = choose|w: int| 0 <= w < input.len() && (#[trigger] input[w]).0 == keys[i];
        assert(mapped[w].0 == keys[i]);
    }
    assert forall|i: int| 0 <= i < mapped.len() implies keys.contains((#[trigger] mapped[i]).0) by {
        assert(mapped[i].0 == input[i].0);
    }
    lemma_keys_of::<K, U>(mapped, keys);
}

/// What `gathered` says, of the input with its items mapped.
pub proof fn lemma_gathered_mapped<K: SortKey, T, U>(
    input: Seq<(K::V, T)>,
    keys: Seq<K::V>,
    items: Seq<Seq<T>>,
    f: spec_fn(T) -> U,
)
    requires
        gathered::<K, T>(input, keys, items),
    ensures
        keys == keys_of::<K, U>(with_items(input, f)),
        items.len() == keys.len(),
        forall|i: int|
            0 <= i < keys.len() ==> (#[trigger] items[i]).map_values(f) == items_under(
                with_items(input, f),
                keys[i],
            ),
        forall|i: int| 0 <= i < keys.len() ==> (#[trigger] items[i]).len() > 0,
{
    lemma_gathered::<K, T>(input, keys, items);
    assert(are_keys_of::<K, T>(input, keys)) by {
        assert forall|i: int| 0 <= i < keys.len() implies has_key(input, #[trigger] keys[i]) by {
            assert(items[i].len() > 0);
            lemma_items_under_empty(input, keys[i]);
        }
    }
    lemma_keys_of_mapped::<K, T, U>(input, f);
    assert forall|i: int| 0 <= i < keys.len() implies (#[trigger] items[i]).map_values(f)
        == items_under(with_items(input, f), keys[i]) by {
        lemma_items_under_mapped(input, f, keys[i]);
    }
}

/// The input sorted by key, items of equal keys in the order they came. There
/// is only one such list.
pub open spec fn stable_order<K: SortKey, T>(input: Seq<(K::V, T)>) -> Seq<(K::V, T)> {
    choose|out: Seq<(K::V, T)>| stably_sorted::<K, T>(input, out)
}

/// Two lists in key order with the same items under every key are the same.
pub proof fn lemma_sorted_unique<K: SortKey, T>(a: Seq<(K::V, T)>, b: Seq<(K::V, T)>)
    requires
        a.len() == b.len(),
        in_key_order::<K, T>(a),
        in_key_order::<K, T>(b),
        forall|k: K::V| #[trigger] items_under(a, k) == items_under(b, k),
    ensures
        a == b,
    decreases a.len(),
{
    if a.len() == 0 {
        assert(a =~= b);
    } else {
        let x = a.last();
        let y = b.last();
        let a0 = a.drop_last();
        let b0 = b.drop_last();
        assert(a[a.len() - 1] == x && b[b.len() - 1] == y);
        if x.0 != y.0 {
            lemma_items_under_empty(a, x.0);
            lemma_items_under_empty(b, x.0);
            lemma_items_under_empty(a, y.0);
            lemma_items_under_empty(b, y.0);
            assert(has_key(a, x.0));
            assert(has_key(b, y.0));
            assert(items_under(a, x.0) == items_under(b, x.0));
            assert(items_under(a, y.0) == items_under(b, y.0));
            let p = choose|p: int| 0 <= p < b.len() && (#[trigger] b[p]).0 == x.0;
            let q = choose|q: int| 0 <= q < a.len() && (#[trigger] a[q]).0 == y.0;
            assert(!K::before(b[b.len() - 1].0, b[p].0));
            assert(!K::before(a[a.len() - 1].0, a[q].0));
            K::total(x.0, y.0);
        }
        assert(items_under(a, x.0) == items_under(a0, x.0).push(x.1));
        assert(items_under(b, x.0) == items_under(b0, x.0).push(y.1));
        assert(items_under(a, x.0).last() == x.1);
        assert(items_under(b, x.0).last() == y.1);
        assert forall|k: K::V| #[trigger] items_under(a0, k) == items_under(b0, k) by {
            assert(items_under(a, k) == items_under(b, k));
            if k == x.0 {
                assert(items_under(a0, k) =~= items_under(a, k).drop_last());
                assert(items_under(b0, k) =~= items_under(b, k).drop_last());
            }
        }
        assert forall|i: int, j: int| 0 <= i < j < a0.len() implies !K::before(
            (#[trigger] a0[j]).0,
            (#[trigger] a0[i]).0,
        ) by {
            assert(a0[i] == a[i] && a0[j] == a[j]);
        }
        assert forall|i: int, j: int| 0 <= i < j < b0.len() implies !K::before(
            (#[trigger] b0[j]).0,
            (#[trigger] b0[i]).0,
        ) by {
            assert(b0[i] == b[i] && b0[j] == b[j]);
        }
        lemma_sorted_unique::<K, T>(a0, b0);
        assert(a =~= a0.push(x));
        assert(b =~= b0.push(y));
    }
}

/// A stable sort is the stable order.
pub proof fn lemma_stable_order<K: SortKey, T>(input: Seq<(K::V, T)>, out: Seq<(K::V, T)>)
    requires
        stably_sorted::<K, T>(input, out),
    ensures
        stable_order::<K, T>(input) == out,
{
    let other = stable_order::<K, T>(input);
    assert(stably_sorted::<K, T>(input, other));
    assert forall|k: K::V| #[trigger] items_under(out, k) == items_under(other, k) by {
        assert(items_under(out, k) == items_under(input, k));
    }
    lemma_sorted_unique::<K, T>(out, other);
}

/// The stable order of the input with its items mapped is the stable order with
/// its items mapped.
pub proof fn lemma_stable_order_mapped<K: SortKey, T, U>(
    input: Seq<(K::V, T)>,
    out: Seq<(K::V, T)>,
    f: spec_fn(T) -> U,
)
    requires
        stably_sorted::<K, T>(input, out),
    ensures
        stable_order::<K, U>(with_items(input, f)) == with_items(out, f),
{
    let i2 = with_items(input, f);
    let o2 = with_items(out, f);
    assert forall|k: K::V| #[trigger] items_under(o2, k) == items_under(i2, k) by {
        lemma_items_under_mapped(input, f, k);
        lemma_items_under_mapped(out, f, k);
        assert(items_under(out, k) == items_under(input, k));
    }
    assert forall|i: int, j: int| 0 <= i < j < o2.len() implies !K::before(
        (#[trigger] o2[j]).0,
        (#[trigger] o2[i]).0,
    ) by {
        assert(o2[i].0 == out[i].0 && o2[j].0 == out[j].0);
    }
    lemma_stable_order::<K, U>(i2, o2);
}

/// Every list has a stable order.
pub proof fn lemma_stable_order_exists<K: SortKey, T>(input: Seq<(K::V, T)>)
    ensures
        stably_sorted::<K, T>(input, stable_order::<K, T>(input)),
    decreases input.len(),
{
    if input.len() == 0 {
        assert(stably_sorted::<K, T>(input, input));
    } else {
        let rest = input.drop_last();
        let x = input.last();
        lemma_stable_order_exists::<K, T>(rest);
        let s = stable_order::<K, T>(rest);
        let p = lemma_insertion_place::<K, T>(s, x.0);
        let a = s.take(p);
        let b = s.skip(p);
        let out = a + (seq![x] + b);
        assert(s =~= a + b);
        assert(input =~= rest + seq![x]);
        assert forall|k: K::V| #[trigger] items_under(out, k) == items_under(input, k) by {
            lemma_items_under_join(a, seq![x] + b, k);
            lemma_items_under_join(seq![x], b, k);
            lemma_items_under_join(a, b, k);
            lemma_items_under_join(rest, seq![x], k);
            lemma_single(x, k);
            assert(items_under(s, k) == items_under(rest, k));
            if k == x.0 {
                assert forall|i: int| 0 <= i < b.len() implies (#[trigger] b[i]).0 != k by {
                    assert(b[i] == s[p + i]);
                    K::irreflexive(k);
                }
                lemma_items_under_none(b, k);
                assert(items_under(out, k) =~= items_under(a, k) + seq![x.1]);
                assert(items_under(a, k) + Seq::<T>::empty() =~= items_under(a, k));
            } else {
                assert(items_under(out, k) =~= items_under(a, k) + items_under(b, k));
                assert(items_under(rest, k) + Seq::<T>::empty() =~= items_under(rest, k));
            }
        }
        assert forall|i: int, j: int| 0 <= i < j < out.len() implies !K::before(
            (#[trigger] out[j]).0,
            (#[trigger] out[i]).0,
        ) by {
            let i0 = if i < p { i } else { i - 1 };
            let j0 = if j < p { j } else { j - 1 };
            if i == p {
                assert(out[j] == s[j0]);
                if K::before(s[j0].0, x.0) {
                    K::transitive(x.0, s[j0].0, x.0);
                    K::irreflexive(x.0);
                }
            } else if j == p {
                assert(out[i] == s[i0]);
            } else {
                assert(out[i] == s[i0]);
                assert(out[j] == s[j0]);
            }
        }
        assert(stably_sorted::<K, T>(input, out));
    }
}

/// Where a key goes in a sorted list: after every key that it does not come
/// before.
proof fn lemma_insertion_place<K: SortKey, T>(s: Seq<(K::V, T)>, k: K::V) -> (p: int)
    requires
        in_key_order::<K, T>(s),
    ensures
        0 <= p <= s.len(),
        forall|i: int| 0 <= i < p ==> !K::before(k, (#[trigger] s[i]).0),
        forall|i: int| p <= i < s.len() ==> K::before(k, (#[trigger] s[i]).0),
    decreases s.len(),
{
    if s.len() == 0 {
        0
    } else {
        let rest = s.drop_last();
        assert forall|i: int, j: int| 0 <= i < j < rest.len() implies !K::before(
            (#[trigger] rest[j]).0,
            (#[trigger] rest[i]).0,
        ) by {
            assert(rest[i] == s[i] && rest[j] == s[j]);
        }
        if K::before(k, s.last().0) {
            let p = lemma_insertion_place::<K, T>(rest, k);
            assert forall|i: int| 0 <= i < p implies !K::before(k, (#[trigger] s[i]).0) by {
                assert(rest[i] == s[i]);
            }
            assert forall|i: int| p <= i < s.len() implies K::before(k, (#[trigger] s[i]).0) by {
                if i < rest.len() {
                    assert(rest[i] == s[i]);
                }
            }
            p
        } else {
            assert forall|i: int| 0 <= i < s.len() implies !K::before(k, (#[trigger] s[i]).0) by {
                if i < s.len() - 1 && K::before(k, s[i].0) {
                    assert(!K::before(s[s.len() - 1].0, s[i].0));
                    K::total(s[i].0, s.last().0);
                    if K::before(s[i].0, s.last().0) {
                        K::transitive(k, s[i].0, s.last().0);
                    }
                }
            }
            s.len() as int
        }
    }
}

/// The lists joined into one.
pub open spec fn flat<T>(s: Seq<Seq<T>>) -> Seq<T>
    decreases s.len(),
{
    if s.len() == 0 {
        Seq::empty()
    } else {
        flat(s.drop_last()) + s.last()
    }
}

} // verus!
