//! What the listings hold, in terms of the rows they are made of.

use vstd::prelude::*;
use crate::labels::Pairs;
use crate::prometheus::ast::SelectorView;
use crate::prometheus::catalog::{
    keys_of_series, present_texts, values_named, with_rows, SeriesView,
};
use crate::prometheus::rows::{key_text, meets_all, row_matchers};

verus! {

/// Values are listed one by one.
pub proof fn law_values_are_listed_one_by_one(a: Seq<Option<String>>, b: Seq<Option<String>>)
    ensures
        present_texts(a + b) == present_texts(a) + present_texts(b),
    decreases b.len(),
{
    if b.len() == 0 {
        assert(a + b =~= a);
        assert(present_texts(a) + present_texts(b) =~= present_texts(a));
    } else {
        law_values_are_listed_one_by_one(a, b.drop_last());
        assert((a + b).drop_last() =~= a + b.drop_last());
        assert((a + b).last() == b.last());
        assert(present_texts(a + b) =~= present_texts(a) + present_texts(b));
    }
}

/// A value is listed as it is; a row without one is passed over.
pub proof fn law_a_value_is_listed(row: Option<String>)
    ensures
        row is Some ==> present_texts(seq![row]) == seq![row->0@],
        row is None ==> present_texts(seq![row]).len() == 0,
{
    let one = seq![row];
    assert(one.last() == row);
    assert(one.drop_last() =~= Seq::empty());
    reveal_with_fuel(present_texts, 2);
    if row is Some {
        assert(present_texts(one) =~= seq![row->0@]);
    }
}

/// Parameters are picked one by one.
pub proof fn law_parameters_are_picked_one_by_one(a: Pairs, b: Pairs, name: Seq<char>)
    ensures
        values_named(a + b, name) == values_named(a, name) + values_named(b, name),
    decreases b.len(),
{
    if b.len() == 0 {
        assert(a + b =~= a);
        assert(values_named(a, name) + values_named(b, name) =~= values_named(a, name));
    } else {
        law_parameters_are_picked_one_by_one(a, b.drop_last(), name);
        assert((a + b).drop_last() =~= a + b.drop_last());
        assert((a + b).last() == b.last());
        assert(values_named(a + b, name) =~= values_named(a, name) + values_named(b, name));
    }
}

/// A parameter is picked by its name, and gives its value.
pub proof fn law_a_parameter_is_picked(key: Seq<char>, value: Seq<char>, name: Seq<char>)
    ensures
        key == name ==> values_named(seq![(key, value)], name) == seq![value],
        key != name ==> values_named(seq![(key, value)], name).len() == 0,
{
    let one = seq![(key, value)];
    assert(one.last() == (key, value));
    assert(one.drop_last() =~= Seq::empty());
    reveal_with_fuel(values_named, 2);
    if key == name {
        assert(values_named(one, name) =~= seq![value]);
    }
}

/// A series stands among those that were read and meets what is asked of it.
pub open spec fn is_asked_for(rows: Seq<SeriesView>, sel: SelectorView, s: SeriesView) -> bool {
    exists|i: int|
        0 <= i < rows.len() && #[trigger] rows[i] == s && meets_all(
            s.0,
            s.1,
            row_matchers(sel.matchers),
        )
}

/// A series is among those listed, by its name and labels.
pub open spec fn is_listed(found: Seq<SeriesView>, s: SeriesView) -> bool {
    exists|i: int|
        0 <= i < found.len() && key_text((#[trigger] found[i]).0, found[i].1) == key_text(s.0, s.1)
}

proof fn lemma_is_listed(found: Seq<SeriesView>, s: SeriesView)
    ensures
        keys_of_series(found).contains(key_text(s.0, s.1)) <==> is_listed(found, s),
{
    let keys = keys_of_series(found);
    if keys.contains(key_text(s.0, s.1)) {
        let i = keys.index_of(key_text(s.0, s.1));
        assert(key_text(found[i].0, found[i].1) == keys[i]);
    }
    if is_listed(found, s) {
        let i = choose|i: int|
            0 <= i < found.len() && key_text((#[trigger] found[i]).0, found[i].1) == key_text(
                s.0,
                s.1,
            );
        assert(keys[i] == key_text(s.0, s.1));
    }
}

/// What was listed stays, in its order. What comes after it was read and meets
/// the selector, and all that was read and meets it is listed.
pub proof fn law_series_that_are_listed(
    found: Seq<SeriesView>,
    rows: Seq<SeriesView>,
    sel: SelectorView,
)
    ensures
        found.len() <= with_rows(found, rows, sel).len(),
        with_rows(found, rows, sel).take(found.len() as int) == found,
        forall|j: int|
            found.len() <= j < with_rows(found, rows, sel).len() ==> is_asked_for(
                rows,
                sel,
                #[trigger] with_rows(found, rows, sel)[j],
            ),
        forall|s: SeriesView| #[trigger]
            is_asked_for(rows, sel, s) ==> is_listed(with_rows(found, rows, sel), s),
    decreases rows.len(),
{
    let after = with_rows(found, rows, sel);
    if rows.len() == 0 {
        assert(after.take(found.len() as int) =~= found);
    } else {
        let front = rows.drop_last();
        let last = rows.last();
        let before = with_rows(found, front, sel);
        law_series_that_are_listed(found, front, sel);
        lemma_is_listed(before, last);
        assert(after == before || after == before.push(last));
        assert(after.take(found.len() as int) =~= before.take(found.len() as int));
        assert forall|j: int| found.len() <= j < after.len() implies is_asked_for(
            rows,
            sel,
            #[trigger] after[j],
        ) by {
            if j < before.len() {
                assert(after[j] == before[j]);
                assert(is_asked_for(front, sel, before[j]));
                let i = choose|i: int|
                    0 <= i < front.len() && #[trigger] front[i] == before[j] && meets_all(
                        before[j].0,
                        before[j].1,
                        row_matchers(sel.matchers),
                    );
                assert(rows[i] == after[j]);
            } else {
                assert(rows[rows.len() - 1] == after[j]);
            }
        }
        assert forall|s: SeriesView| #[trigger] is_asked_for(rows, sel, s) implies is_listed(
            after,
            s,
        ) by {
            let i = choose|i: int|
                0 <= i < rows.len() && #[trigger] rows[i] == s && meets_all(
                    s.0,
                    s.1,
                    row_matchers(sel.matchers),
                );
            if i < front.len() {
                assert(front[i] == s);
                assert(is_asked_for(front, sel, s));
                let k = choose|k: int|
                    0 <= k < before.len() && key_text((#[trigger] before[k]).0, before[k].1)
                        == key_text(s.0, s.1);
                assert(after[k] == before[k]);
            } else if is_listed(before, last) {
                let k = choose|k: int|
                    0 <= k < before.len() && key_text((#[trigger] before[k]).0, before[k].1)
                        == key_text(s.0, s.1);
                assert(after[k] == before[k]);
            } else {
                assert(after[before.len() as int] == s);
            }
        }
    }
}

} // verus!
