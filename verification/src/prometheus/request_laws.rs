//! What is asked for and which series meet it, in terms of the request.

use vstd::prelude::*;
use crate::labels::{in_name_order, label_map, lemma_label_map_exists, lookup, Pairs};
use crate::prometheus::ast::{expression, ExprView, MatchOp, MatcherView};
use crate::prometheus::decode::full_entries;
use crate::prometheus::error::ErrorView;
use crate::prometheus::histogram::NumberReader;
use crate::prometheus::numbers::Arithmetic;
use crate::prometheus::plan::BinOp;
use crate::prometheus::response_laws::{distinct_labels, has_label, names_label};
use crate::prometheus::rows::{
    is_pattern, label_matches, pattern_matches, row_matchers, series_matches,
};
use crate::prometheus::times::{duration_of, instant_request, range_request, timestamp_of};

verus! {

// ---------- requests ----------

/// An instant query is run at the time that it asks for, or at the present where
/// it asks for none, and for the expression that it holds; it is run exactly
/// where both can be read.
pub proof fn law_instant_requests<
    C: Fn(BinOp, u64, u64) -> u64,
    W: Fn(i128) -> u64,
    R: Fn(&str) -> Option<u64>,
>(
    ar: Arithmetic<C, W>,
    reader: NumberReader<R>,
    query: Seq<char>,
    time: Option<Seq<char>>,
    now_us: i64,
    time_us: i64,
    expr: ExprView,
)
    ensures
        instant_request(ar, reader, query, time, now_us) == Ok::<(i64, ExprView), ErrorView>(
            (time_us, expr),
        ) <==> {
            &&& expression(query) == Ok::<ExprView, ErrorView>(expr)
            &&& time is None ==> time_us == now_us
            &&& time is Some ==> timestamp_of(ar, reader, time->0) == Ok::<i64, ErrorView>(time_us)
        },
{
}

/// A range query is run from its start to its end, in steps as long as it asks
/// for, and for the expression that it holds; it is run exactly where all of
/// them can be read and the step leads forward.
pub proof fn law_range_requests<
    C: Fn(BinOp, u64, u64) -> u64,
    W: Fn(i128) -> u64,
    R: Fn(&str) -> Option<u64>,
>(
    ar: Arithmetic<C, W>,
    reader: NumberReader<R>,
    query: Seq<char>,
    start: Seq<char>,
    end: Seq<char>,
    step: Seq<char>,
    start_us: i64,
    end_us: i64,
    step_us: i64,
    expr: ExprView,
)
    ensures
        range_request(ar, reader, query, start, end, step) == Ok::<
            (i64, i64, i64, ExprView),
            ErrorView,
        >((start_us, end_us, step_us, expr)) <==> {
            &&& expression(query) == Ok::<ExprView, ErrorView>(expr)
            &&& timestamp_of(ar, reader, start) == Ok::<i64, ErrorView>(start_us)
            &&& timestamp_of(ar, reader, end) == Ok::<i64, ErrorView>(end_us)
            &&& duration_of(ar, reader, step) == Ok::<i64, ErrorView>(step_us)
            &&& step_us > 0
        },
{
}

// ---------- matchers ----------

/// What a matcher looks at in a series: its metric's name, or the value of a
/// label, which is empty where the series does not have it.
pub open spec fn looks_at(
    metric: Seq<char>,
    labels: Pairs,
    name: Seq<char>,
    value: Seq<char>,
) -> bool {
    if name == "__name__"@ {
        value == metric
    } else if names_label(labels, name) {
        has_label(labels, name, value)
    } else {
        value.len() == 0
    }
}

proof fn lemma_lookup(labels: Pairs, name: Seq<char>)
    requires
        distinct_labels(labels),
    ensures
        lookup(labels, name) is Some <==> names_label(labels, name),
        forall|v: Seq<char>| #[trigger]
            has_label(labels, name, v) <==> lookup(labels, name) == Some(v),
    decreases labels.len(),
{
    if labels.len() > 0 {
        let front = labels.drop_last();
        let n = labels.len() - 1;
        assert forall|i: int, j: int| 0 <= i < j < front.len() implies (#[trigger] front[i]).0 != (
        #[trigger] front[j]).0 by {
            assert(front[i] == labels[i] && front[j] == labels[j]);
        }
        lemma_lookup(front, name);
        assert(labels[n] == labels.last());
        if labels.last().0 == name {
            assert forall|v: Seq<char>| #[trigger] has_label(labels, name, v) <==> lookup(
                labels,
                name,
            ) == Some(v) by {
                if has_label(labels, name, v) {
                    let i = choose|i: int| 0 <= i < labels.len() && #[trigger] labels[i] == (name, v);
                    if i < n {
                        assert(labels[i].0 != labels[n].0);
                    }
                }
                if labels.last().1 == v {
                    assert(labels[n] == (name, v));
                }
            }
        } else {
            if names_label(labels, name) {
                let i = choose|i: int| 0 <= i < labels.len() && (#[trigger] labels[i]).0 == name;
                assert(front[i].0 == name);
            }
            if names_label(front, name) {
                let i = choose|i: int| 0 <= i < front.len() && (#[trigger] front[i]).0 == name;
                assert(labels[i].0 == name);
            }
            assert forall|v: Seq<char>| #[trigger] has_label(labels, name, v) <==> lookup(
                labels,
                name,
            ) == Some(v) by {
                assert(has_label(front, name, v) <==> lookup(front, name) == Some(v));
                if has_label(labels, name, v) {
                    let i = choose|i: int| 0 <= i < labels.len() && #[trigger] labels[i] == (name, v);
                    assert(front[i] == (name, v));
                }
                if has_label(front, name, v) {
                    let i = choose|i: int| 0 <= i < front.len() && #[trigger] front[i] == (name, v);
                    assert(labels[i] == (name, v));
                }
            }
        }
    }
}

/// A series meets a `=` matcher where what the matcher looks at is its value,
/// and a `=~` matcher where its value is a pattern that what it looks at
/// matches; `!=` and `!~` are met where `=` and `=~` are not.
pub proof fn law_series_that_meet_a_matcher(
    metric: Seq<char>,
    labels: Pairs,
    m: MatcherView,
    v: Seq<char>,
)
    requires
        distinct_labels(labels),
        looks_at(metric, labels, m.name, v),
    ensures
        m.op is Equal ==> (series_matches(metric, labels, m) <==> v == m.value),
        m.op is NotEqual ==> (series_matches(metric, labels, m) <==> v != m.value),
        m.op is Re ==> (series_matches(metric, labels, m) <==> is_pattern(m.value)
            && pattern_matches(m.value, v)),
        m.op is NotRe ==> (series_matches(metric, labels, m) <==> !(is_pattern(m.value)
            && pattern_matches(m.value, v))),
        m.name != "__name__"@ ==> label_matches(labels, m) == series_matches(metric, labels, m),
{
    lemma_lookup(labels, m.name);
    if m.name != "__name__"@ {
        if names_label(labels, m.name) {
            assert(lookup(labels, m.name) == Some(v));
        } else {
            assert(v =~= Seq::empty());
        }
    }
}

/// Of a selector's matchers the patterns are applied to rows, each of them, in
/// order, and no others.
pub proof fn law_patterns_are_applied_to_rows(a: Seq<MatcherView>, b: Seq<MatcherView>, m: MatcherView)
    ensures
        row_matchers(a + b) == row_matchers(a) + row_matchers(b),
        row_matchers(seq![m]) == if m.op == MatchOp::Re || m.op == MatchOp::NotRe {
            seq![m]
        } else {
            Seq::empty()
        },
    decreases b.len(),
{
    let one = seq![m];
    assert(one.last() == m);
    assert(one.drop_last() =~= Seq::empty());
    reveal_with_fuel(row_matchers, 2);
    assert(row_matchers(one) =~= if m.op == MatchOp::Re || m.op == MatchOp::NotRe {
        seq![m]
    } else {
        Seq::empty()
    });
    if b.len() == 0 {
        assert(a + b =~= a);
        assert(row_matchers(a) + row_matchers(b) =~= row_matchers(a));
    } else {
        law_patterns_are_applied_to_rows(a, b.drop_last(), m);
        assert((a + b).drop_last() =~= a + b.drop_last());
        assert((a + b).last() == b.last());
        assert(row_matchers(a + b) =~= row_matchers(a) + row_matchers(b));
    }
}

// ---------- labels of rows ----------

/// The last entry of a row's labels that has a key and a value, with this key.
pub open spec fn is_last_full(
    entries: Seq<(Option<String>, Option<String>)>,
    i: int,
    name: Seq<char>,
) -> bool {
    &&& 0 <= i < entries.len()
    &&& entries[i].0 is Some && entries[i].1 is Some && entries[i].0->0@ == name
    &&& forall|j: int|
        i < j < entries.len() ==> !((#[trigger] entries[j]).0 is Some && entries[j].1 is Some
            && entries[j].0->0@ == name)
}

proof fn lemma_last_full(
    entries: Seq<(Option<String>, Option<String>)>,
    i: int,
    name: Seq<char>,
)
    requires
        is_last_full(entries, i, name),
    ensures
        lookup(full_entries(entries), name) == Some(entries[i].1->0@),
    decreases entries.len(),
{
    let front = entries.drop_last();
    let n = entries.len() - 1;
    let all = full_entries(entries);
    assert(entries[n] == entries.last());
    if i == n {
        assert(all.last() == (name, entries[i].1->0@));
    } else {
        assert forall|j: int| i < j < front.len() implies !((#[trigger] front[j]).0 is Some
            && front[j].1 is Some && front[j].0->0@ == name) by {
            assert(front[j] == entries[j]);
        }
        assert(front[i] == entries[i]);
        lemma_last_full(front, i, name);
        if entries[n].0 is Some && entries[n].1 is Some {
            assert(all.drop_last() =~= full_entries(front));
        }
    }
}

proof fn lemma_no_full(entries: Seq<(Option<String>, Option<String>)>, name: Seq<char>)
    requires
        forall|j: int|
            0 <= j < entries.len() ==> !((#[trigger] entries[j]).0 is Some && entries[j].1 is Some
                && entries[j].0->0@ == name),
    ensures
        lookup(full_entries(entries), name) is None,
    decreases entries.len(),
{
    if entries.len() > 0 {
        let front = entries.drop_last();
        let n = entries.len() - 1;
        assert(entries[n] == entries.last());
        assert forall|j: int| 0 <= j < front.len() implies !((#[trigger] front[j]).0 is Some
            && front[j].1 is Some && front[j].0->0@ == name) by {
            assert(front[j] == entries[j]);
        }
        lemma_no_full(front, name);
        if entries[n].0 is Some && entries[n].1 is Some {
            assert(full_entries(entries).drop_last() =~= full_entries(front));
        }
    }
}

/// A row's labels are in the order of their names. Each has the value of the
/// last entry with its key, of those that have a value, and there are no others.
pub proof fn law_labels_of_a_row(
    entries: Seq<(Option<String>, Option<String>)>,
    name: Seq<char>,
)
    ensures
        in_name_order(label_map(full_entries(entries))),
        forall|i: int| #[trigger]
            is_last_full(entries, i, name) ==> lookup(label_map(full_entries(entries)), name)
                == Some(entries[i].1->0@),
        (forall|j: int|
            0 <= j < entries.len() ==> !((#[trigger] entries[j]).0 is Some && entries[j].1 is Some
                && entries[j].0->0@ == name)) ==> lookup(label_map(full_entries(entries)), name)
            is None,
{
    let full = full_entries(entries);
    lemma_label_map_exists(full);
    assert(lookup(label_map(full), name) == lookup(full, name));
    assert forall|i: int| #[trigger] is_last_full(entries, i, name) implies lookup(
        label_map(full),
        name,
    ) == Some(entries[i].1->0@) by {
        lemma_last_full(entries, i, name);
    }
    if forall|j: int|
        0 <= j < entries.len() ==> !((#[trigger] entries[j]).0 is Some && entries[j].1 is Some
            && entries[j].0->0@ == name) {
        lemma_no_full(entries, name);
    }
}

} // verus!
