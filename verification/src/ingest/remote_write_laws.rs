//! What flattening keeps of a request.
//!
//! A request's series are flattened one by one, and each is taken apart into its
//! samples: nothing of a named series is lost but the reserved labels, and nothing
//! is added.

use vstd::prelude::*;
use crate::ingest::protobuf::request_of;
use crate::ingest::remote_write::{
    flat, flat_series, kept_labels, metric_name, nameless, snappy_body, snappy_declared,
    written_series, DecodeFailure, RawView, SeriesView,
};
use crate::labels::{
    in_name_order, is_label_map, label_map, lemma_label_map_exists, lemma_lookup_at,
    lemma_lookup_some, lookup, Pairs,
};
use crate::text::begins_with;

verus! {

/// Whether a label name is reserved: it begins with two underscores.
pub open spec fn reserved(name: Seq<char>) -> bool {
    name.len() >= 2 && name[0] == '_' && name[1] == '_'
}

/// Whether a value is the last that is given for a name.
pub open spec fn last_given(labels: Pairs, name: Seq<char>, value: Seq<char>) -> bool {
    exists|i: int|
        0 <= i < labels.len() && #[trigger] labels[i] == (name, value) && (forall|j: int|
            i < j < labels.len() ==> (#[trigger] labels[j]).0 != name)
}

/// Whether a value is the last `__name__` that a series is given.
pub open spec fn is_name(s: SeriesView, name: Seq<char>) -> bool {
    last_given(s.labels, seq!['_', '_', 'n', 'a', 'm', 'e', '_', '_'], name)
}

/// Whether a series has a name, one that is not empty.
pub open spec fn has_name(s: SeriesView) -> bool {
    exists|name: Seq<char>| #[trigger] is_name(s, name) && name.len() > 0
}

proof fn lemma_last_given(labels: Pairs, name: Seq<char>, value: Seq<char>)
    ensures
        lookup(labels, name) == Some(value) <==> last_given(labels, name, value),
    decreases labels.len(),
{
    if labels.len() > 0 {
        let rest = labels.drop_last();
        lemma_last_given(rest, name, value);
        if labels.last().0 == name {
            assert(labels[labels.len() - 1] == labels.last());
        } else {
            if last_given(rest, name, value) {
                let i = choose|i: int|
                    0 <= i < rest.len() && #[trigger] rest[i] == (name, value) && (forall|j: int|
                        i < j < rest.len() ==> (#[trigger] rest[j]).0 != name);
                assert(labels[i] == (name, value));
                assert forall|j: int| i < j < labels.len() implies (#[trigger] labels[j]).0
                    != name by {
                    if j < rest.len() {
                        assert(rest[j] == labels[j]);
                    }
                }
            }
            if last_given(labels, name, value) {
                let i = choose|i: int|
                    0 <= i < labels.len() && #[trigger] labels[i] == (name, value) && (forall|j: int|
                        i < j < labels.len() ==> (#[trigger] labels[j]).0 != name);
                assert(rest[i] == (name, value));
                assert forall|j: int| i < j < rest.len() implies (#[trigger] rest[j]).0 != name by {
                    assert(rest[j] == labels[j]);
                }
            }
        }
    }
}

proof fn lemma_reserved(name: Seq<char>)
    ensures
        begins_with(name, "__"@) <==> reserved(name),
{
    reveal_strlit("__");
    if begins_with(name, "__"@) {
        assert(name.take(2)[0] == '_' && name.take(2)[1] == '_');
    }
    if reserved(name) {
        assert(name.take(2) =~= "__"@);
    }
}

proof fn lemma_kept(labels: Pairs, name: Seq<char>)
    ensures
        lookup(kept_labels(labels), name) == if reserved(name) {
            None
        } else {
            lookup(labels, name)
        },
    decreases labels.len(),
{
    if labels.len() > 0 {
        lemma_kept(labels.drop_last(), name);
        lemma_reserved(labels.last().0);
        let k = kept_labels(labels);
        if !reserved(labels.last().0) {
            assert(k.drop_last() =~= kept_labels(labels.drop_last()));
            assert(k.last() == labels.last());
        }
    }
}

proof fn lemma_name(s: SeriesView)
    ensures
        metric_name(s.labels) is Some <==> has_name(s),
        metric_name(s.labels) is Some ==> is_name(s, metric_name(s.labels)->0)
            && metric_name(s.labels)->0.len() > 0,
{
    reveal_strlit("__name__");
    let n = seq!['_', '_', 'n', 'a', 'm', 'e', '_', '_'];
    assert("__name__"@ =~= n);
    if lookup(s.labels, n) is Some {
        lemma_last_given(s.labels, n, lookup(s.labels, n)->0);
        assert(is_name(s, lookup(s.labels, n)->0));
    }
    if has_name(s) {
        let v = choose|v: Seq<char>| #[trigger] is_name(s, v) && v.len() > 0;
        lemma_last_given(s.labels, n, v);
    }
}

/// Whether raw samples are those of a series: for each of its samples, where it has
/// a name, one with the timestamp, the value and the name, and with exactly those
/// labels that are not reserved, each with the last value given for it.
pub open spec fn takes_apart(s: SeriesView, out: Seq<RawView>) -> bool {
    &&& out.len() == if has_name(s) {
        s.samples.len()
    } else {
        0
    }
    &&& forall|i: int|
        0 <= i < out.len() ==> {
            let x = #[trigger] out[i];
            &&& x.ts == s.samples[i].timestamp
            &&& x.value == s.samples[i].value
            &&& is_name(s, x.metric)
            &&& in_name_order(x.labels)
        }
    &&& forall|i: int, name: Seq<char>, value: Seq<char>|
        0 <= i < out.len() ==> (#[trigger] out[i].labels.contains((name, value)) <==> last_given(
            s.labels,
            name,
            value,
        ) && !reserved(name))
    &&& forall|i: int, name: Seq<char>|
        0 <= i < out.len() ==> #[trigger] lookup(out[i].labels, name) == if reserved(name) {
            None
        } else {
            lookup(s.labels, name)
        }
}

/// A named series comes out as its samples, one by one and in order, each with its
/// timestamp and value, with the series' name, and with exactly those labels that
/// are not reserved, each with the last value given for it. A series without a name
/// comes out as nothing.
pub proof fn law_a_series_is_taken_apart(s: SeriesView)
    ensures
        !has_name(s) ==> nameless(seq![s]) == 1,
        has_name(s) ==> nameless(seq![s]) == 0,
        takes_apart(s, flat(seq![s])),
{
    let all = seq![s];
    reveal_with_fuel(flat, 2);
    reveal_with_fuel(nameless, 2);
    assert(all.drop_last() =~= Seq::empty());
    assert(flat(all) =~= flat_series(s));
    lemma_name(s);
    let out = flat(all);
    let kept = kept_labels(s.labels);
    lemma_label_map_exists(kept);
    let m = label_map(kept);
    assert(is_label_map(m, kept));
    assert forall|i: int, name: Seq<char>| 0 <= i < out.len() implies #[trigger] lookup(
        out[i].labels,
        name,
    ) == if reserved(name) {
        None
    } else {
        lookup(s.labels, name)
    } by {
        lemma_kept(s.labels, name);
        assert(out[i].labels == m);
    }
    assert forall|i: int, name: Seq<char>, value: Seq<char>| 0 <= i < out.len() implies (
    #[trigger] out[i].labels.contains((name, value)) <==> last_given(s.labels, name, value)
        && !reserved(name)) by {
        let l = out[i].labels;
        assert(l == m);
        assert(lookup(l, name) == if reserved(name) {
            None
        } else {
            lookup(s.labels, name)
        });
        lemma_last_given(s.labels, name, value);
        lemma_lookup_some(l, name);
        if l.contains((name, value)) {
            let k = choose|k: int| 0 <= k < l.len() && l[k] == (name, value);
            lemma_lookup_at(l, k);
        }
    }
}

/// The series of a request are flattened one after another, each by itself.
pub proof fn law_series_are_flattened_one_by_one(a: Seq<SeriesView>, b: Seq<SeriesView>)
    ensures
        flat(a + b) == flat(a) + flat(b),
        nameless(a + b) == nameless(a) + nameless(b),
        flat(Seq::<SeriesView>::empty()) == Seq::<RawView>::empty(),
        nameless(Seq::<SeriesView>::empty()) == 0,
    decreases b.len(),
{
    if b.len() == 0 {
        assert(a + b =~= a);
        assert(flat(a) + flat(b) =~= flat(a));
    } else {
        law_series_are_flattened_one_by_one(a, b.drop_last());
        assert((a + b).drop_last() =~= a + b.drop_last());
        assert((a + b).last() == b.last());
        assert(flat(a + b) =~= flat(a) + flat(b));
    }
}

/// A body is read exactly where it does not declare to be larger than 32 MiB, can
/// be decompressed, is then no larger than that, and is a request.
pub proof fn law_bodies_that_are_read(compressed: Seq<u8>, series: Seq<SeriesView>)
    ensures
        written_series(compressed) == Ok::<Seq<SeriesView>, DecodeFailure>(series) <==> {
            &&& snappy_declared(compressed) is None || snappy_declared(compressed)->0 <= 32 * 1024
                * 1024
            &&& snappy_body(compressed) is Ok
            &&& snappy_body(compressed)->Ok_0.len() <= 32 * 1024 * 1024
            &&& request_of(snappy_body(compressed)->Ok_0) is Ok
            &&& request_of(snappy_body(compressed)->Ok_0)->Ok_0 == series
        },
        snappy_declared(compressed) is Some && snappy_declared(compressed)->0 > 32 * 1024 * 1024
            ==> written_series(compressed) is Err && written_series(
            compressed,
        )->Err_0 is TooLarge,
{
}

} // verus!
