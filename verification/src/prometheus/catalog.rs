//! Label names, label values, and which series there are.

use vstd::prelude::*;
use crate::json::{json_views, Json, JsonView};
use crate::labels::{pair_views, Labels, Pairs};
use crate::ordered::{increasing, SortKey};
use crate::prometheus::ast::{opt_text, Selector, SelectorView};
use crate::prometheus::response::{metric_json, series_metric_obj, success, success_json};
use crate::prometheus::rows::{
    filter_views, key_text, label_filters_for_selector, meets_all, passes, row_matchers, series_key,
};
use crate::prometheus::sql::NAME_LABEL;
use crate::text::{
    holds_text, lemma_text_total, lemma_text_transitive, same_text, text_before, text_precedes,
    texts,
};

verus! {

// ---------- names and values ----------

/// Put a text into a list in text order, unless it is there.
fn insert_text(list: &mut Vec<String>, t: String)
    requires
        increasing::<String>(texts(old(list)@)),
    ensures
        increasing::<String>(texts(final(list)@)),
        forall|s: Seq<char>|
            #[trigger] texts(final(list)@).contains(s) <==> texts(old(list)@).contains(s) || s == t@,
{
    let ghost l0 = texts(list@);
    let ghost k = t@;
    let mut i: usize = 0;
    while i < list.len() && text_precedes(list[i].as_str(), t.as_str())
        invariant
            texts(list@) == l0,
            l0.len() == list@.len(),
            k == t@,
            i <= list@.len(),
            forall|j: int| 0 <= j < i ==> text_before(#[trigger] l0[j], k),
        decreases list@.len() - i,
    {
        assert(l0[i as int] == list@[i as int]@);
        i += 1;
    }
    if i < list.len() && same_text(list[i].as_str(), t.as_str()) {
        assert(l0[i as int] == k);
        return;
    }
    proof {
        assert forall|j: int| i <= j < l0.len() implies text_before(k, #[trigger] l0[j]) by {
            assert(l0[i as int] == list@[i as int]@);
            lemma_text_total(k, l0[i as int]);
            if j > i {
                assert(String::before(l0[i as int], l0[j]));
                lemma_text_transitive(k, l0[i as int], l0[j]);
            }
        }
    }
    list.insert(i, t);
    proof {
        let l1 = texts(list@);
        assert(l1 =~= l0.insert(i as int, k));
        assert forall|a: int, b: int| 0 <= a < b < l1.len() implies String::before(
            #[trigger] l1[a],
            #[trigger] l1[b],
        ) by {
            let a0 = if a < i { a } else { a - 1 };
            let b0 = if b < i { b } else { b - 1 };
            if a != i && b != i {
                assert(l1[a] == l0[a0] && l1[b] == l0[b0]);
                assert(String::before(l0[a0], l0[b0]));
            } else if a == i {
                assert(l1[b] == l0[b0]);
            } else {
                assert(l1[a] == l0[a0]);
            }
        }
        assert forall|s: Seq<char>| #[trigger] l1.contains(s) <==> l0.contains(s) || s == k by {
            if l0.contains(s) {
                let w = choose|w: int| 0 <= w < l0.len() && l0[w] == s;
                let w1 = if w < i { w } else { w + 1 };
                assert(l1[w1] == s);
            }
            if s == k {
                assert(l1[i as int] == s);
            }
            if l1.contains(s) {
                let w = choose|w: int| 0 <= w < l1.len() && l1[w] == s;
                if w != i {
                    let w0 = if w < i { w } else { w - 1 };
                    assert(l0[w0] == s);
                }
            }
        }
    }
}

/// Whether a text is among the rows.
pub open spec fn has_text(rows: Seq<Option<String>>, s: Seq<char>) -> bool {
    exists|i: int| 0 <= i < rows.len() && opt_text(#[trigger] rows[i]) == Some(s)
}

/// The label names among the rows, each once and in order, `__name__` always
/// among them.
pub fn label_names(rows: Vec<Option<String>>) -> (r: Vec<String>)
    ensures
        increasing::<String>(texts(r@)),
        forall|s: Seq<char>|
            #[trigger] texts(r@).contains(s) <==> s == NAME_LABEL@ || has_text(rows@, s),
{
    let ghost all = rows@;
    let mut list: Vec<String> = Vec::new();
    list.push(NAME_LABEL.to_string());
    proof {
        assert(texts(list@)[0] == NAME_LABEL@);
        assert forall|s: Seq<char>| #[trigger] texts(list@).contains(s) <==> s == NAME_LABEL@
            || has_text(all.take(0), s) by {
            if texts(list@).contains(s) {
                let w = choose|w: int| 0 <= w < texts(list@).len() && texts(list@)[w] == s;
                assert(w == 0);
            }
        }
    }
    for row in it: rows
        invariant
            it.seq() == all,
            increasing::<String>(texts(list@)),
            forall|s: Seq<char>|
                #[trigger] texts(list@).contains(s) <==> s == NAME_LABEL@ || has_text(
                    all.take(it.index() as int),
                    s,
                ),
            all.take(all.len() as int) =~= all,
    {
        let ghost n = it.index() as int;
        let ghost before = texts(list@);
        let ghost v = opt_text(row);
        if let Some(t) = row {
            insert_text(&mut list, t);
        }
        proof {
            assert(all[n] == row);
            assert forall|s: Seq<char>| #[trigger] texts(list@).contains(s) <==> s == NAME_LABEL@
                || has_text(all.take(n + 1), s) by {
                assert(before.contains(s) <==> s == NAME_LABEL@ || has_text(all.take(n), s));
                if has_text(all.take(n), s) {
                    let w = choose|w: int|
                        0 <= w < all.take(n).len() && opt_text(#[trigger] all.take(n)[w]) == Some(s);
                    assert(all.take(n + 1)[w] == all.take(n)[w]);
                }
                if v == Some(s) {
                    assert(opt_text(all.take(n + 1)[n]) == Some(s));
                }
                if has_text(all.take(n + 1), s) {
                    let w = choose|w: int|
                        0 <= w < all.take(n + 1).len() && opt_text(#[trigger] all.take(n + 1)[w])
                            == Some(s);
                    if w < n {
                        assert(all.take(n)[w] == all.take(n + 1)[w]);
                    }
                }
            }
        }
    }
    list
}

/// The texts that are there, in the order they came.
pub open spec fn present_texts(rows: Seq<Option<String>>) -> Seq<Seq<char>>
    decreases rows.len(),
{
    if rows.len() == 0 {
        Seq::empty()
    } else {
        let rest = present_texts(rows.drop_last());
        match rows.last() {
            Some(t) => rest.push(t@),
            None => rest,
        }
    }
}

/// The label values among the rows, in the order they came.
pub fn label_values(rows: Vec<Option<String>>) -> (r: Vec<String>)
    ensures
        texts(r@) == present_texts(rows@),
{
    let ghost all = rows@;
    let mut list: Vec<String> = Vec::new();
    assert(texts(list@) =~= present_texts(all.take(0)));
    for row in it: rows
        invariant
            it.seq() == all,
            texts(list@) == present_texts(all.take(it.index() as int)),
            all.take(all.len() as int) =~= all,
    {
        let ghost before = list@;
        proof {
            let t = all.take(it.index() as int + 1);
            assert(t.drop_last() =~= all.take(it.index() as int));
            assert(t.last() == row);
        }
        if let Some(t) = row {
            let ghost v = t@;
            list.push(t);
            assert(texts(list@) =~= texts(before).push(v));
        }
    }
    list
}

/// The body that a list of texts is answered with.
pub fn names_body(names: Vec<String>) -> (r: Json)
    ensures
        r.view() == success_json(
            JsonView::Array(texts(names@).map_values(|t: Seq<char>| JsonView::Text(t))),
        ),
{
    let ghost want = texts(names@).map_values(|t: Seq<char>| JsonView::Text(t));
    let mut items: Vec<Json> = Vec::new();
    let mut i: usize = 0;
    assert(json_views(items@) =~= want.take(0));
    while i < names.len()
        invariant
            want == texts(names@).map_values(|t: Seq<char>| JsonView::Text(t)),
            i <= names@.len(),
            json_views(items@) == want.take(i as int),
        decreases names@.len() - i,
    {
        let ghost before = items@;
        let j = Json::Text(names[i].clone());
        items.push(j);
        proof {
            assert(want[i as int] == j.view());
            assert(items@.drop_last() =~= before);
            assert(json_views(items@) =~= want.take(i as int + 1));
        }
        i += 1;
    }
    assert(want.take(i as int) =~= want);
    success(Json::Array(items))
}

// ---------- series ----------

/// The name and value pairs of a query string, as
/// `url::form_urlencoded::parse` decodes them.
pub uninterp spec fn form_pairs(raw: Seq<char>) -> Pairs;

/// `url::form_urlencoded::parse`: the pairs of a query string, percent-decoded,
/// in the order they came, repeated names included. The decoding is not spelled
/// out.
#[verifier::external_body]
fn decode_form(raw: &str) -> (r: Vec<(String, String)>)
    ensures
        pair_views(r@) == form_pairs(raw@),
{
    url::form_urlencoded::parse(raw.as_bytes())
        .map(|(k, v)| (k.into_owned(), v.into_owned()))
        .collect()
}

/// The parameter that names a selector.
pub const MATCH_PARAM: &'static str = "match[]";

/// The values of the pairs with that name.
pub open spec fn values_named(pairs: Pairs, name: Seq<char>) -> Seq<Seq<char>>
    decreases pairs.len(),
{
    if pairs.len() == 0 {
        Seq::empty()
    } else if pairs.last().0 == name {
        values_named(pairs.drop_last(), name).push(pairs.last().1)
    } else {
        values_named(pairs.drop_last(), name)
    }
}

/// The values of the pairs with that name, in the order they came.
pub fn pick_named(pairs: Vec<(String, String)>, name: &str) -> (r: Vec<String>)
    ensures
        texts(r@) == values_named(pair_views(pairs@), name@),
{
    let ghost all = pair_views(pairs@);
    let mut out: Vec<String> = Vec::new();
    assert(texts(out@) =~= values_named(all.take(0), name@));
    for p in it: pairs
        invariant
            it.seq() == pairs@,
            all == pair_views(pairs@),
            texts(out@) == values_named(all.take(it.index() as int), name@),
            all.take(all.len() as int) =~= all,
    {
        let ghost before = out@;
        proof {
            let t = all.take(it.index() as int + 1);
            assert(t.drop_last() =~= all.take(it.index() as int));
            assert(t.last() == (p.0@, p.1@));
        }
        if same_text(p.0.as_str(), name) {
            let ghost v = p.1@;
            out.push(p.1);
            assert(texts(out@) =~= texts(before).push(v));
        }
    }
    out
}

/// The selectors of a raw query string: every `match[]` counts, not only the
/// last.
pub fn parse_series_matches(raw: &str) -> (r: Vec<String>)
    ensures
        texts(r@) == values_named(form_pairs(raw@), MATCH_PARAM@),
{
    pick_named(decode_form(raw), MATCH_PARAM)
}

/// A series: its name and labels.
#[derive(Debug)]
pub struct SeriesId {
    pub metric_name: String,
    pub labels: Labels,
}

/// The view of a `SeriesId`.
pub type SeriesView = (Seq<char>, Pairs);

impl View for SeriesId {
    type V = SeriesView;

    open spec fn view(&self) -> SeriesView {
        (self.metric_name@, self.labels@)
    }
}

/// The views of a list of series.
pub open spec fn series_views(s: Seq<SeriesId>) -> Seq<SeriesView> {
    s.map_values(|p: SeriesId| p@)
}

/// The identifying texts of a list of series.
pub open spec fn keys_of_series(s: Seq<SeriesView>) -> Seq<Seq<char>> {
    s.map_values(|p: SeriesView| key_text(p.0, p.1))
}

/// The series found so far with one more, unless it was found before.
pub open spec fn with_series(found: Seq<SeriesView>, s: SeriesView) -> Seq<SeriesView> {
    if keys_of_series(found).contains(key_text(s.0, s.1)) {
        found
    } else {
        found.push(s)
    }
}

/// The series found so far with those of the rows that meet the matchers.
pub open spec fn with_rows(
    found: Seq<SeriesView>,
    rows: Seq<SeriesView>,
    sel: SelectorView,
) -> Seq<SeriesView>
    decreases rows.len(),
{
    if rows.len() == 0 {
        found
    } else {
        let before = with_rows(found, rows.drop_last(), sel);
        if meets_all(rows.last().0, rows.last().1, row_matchers(sel.matchers)) {
            with_series(before, rows.last())
        } else {
            before
        }
    }
}

/// The series that a request's selectors have found, none of them twice.
pub struct SeriesList {
    found: Vec<SeriesId>,
    keys: Vec<String>,
}

impl View for SeriesList {
    type V = Seq<SeriesView>;

    closed spec fn view(&self) -> Seq<SeriesView> {
        series_views(self.found@)
    }
}

impl SeriesList {
    #[verifier::type_invariant]
    spec fn keyed(self) -> bool {
        texts(self.keys@) == keys_of_series(series_views(self.found@))
    }

    /// Nothing found.
    pub fn new() -> (r: SeriesList)
        ensures
            r@ == Seq::<SeriesView>::empty(),
    {
        let found: Vec<SeriesId> = Vec::new();
        let keys: Vec<String> = Vec::new();
        assert(series_views(found@) =~= Seq::empty());
        assert(texts(keys@) =~= keys_of_series(series_views(found@)));
        SeriesList { found, keys }
    }

    /// The series found.
    pub fn into_series(self) -> (r: Vec<SeriesId>)
        ensures
            series_views(r@) == self@,
    {
        self.found
    }

    /// Add the series of the rows that a selector's query returned.
    pub fn add_rows(&mut self, sel: &Selector, rows: Vec<SeriesId>)
        ensures
            final(self)@ == with_rows(old(self)@, series_views(rows@), sel@),
    {
        proof {
            use_type_invariant(&*self);
        }
        let ghost first = self@;
        let ghost all = series_views(rows@);
        let filters = label_filters_for_selector(sel);
        let mut taken = SeriesList::new();
        std::mem::swap(&mut taken, self);
        proof {
            use_type_invariant(&taken);
        }
        let SeriesList { mut found, mut keys } = taken;
        assert(all.take(0).len() == 0);
        for row in it: rows
            invariant
                it.seq() == rows@,
                all == series_views(rows@),
                filter_views(filters@) == row_matchers(sel@.matchers),
                texts(keys@) == keys_of_series(series_views(found@)),
                series_views(found@) == with_rows(first, all.take(it.index() as int), sel@),
                all.take(all.len() as int) =~= all,
        {
            let ghost before = found@;
            let ghost keys0 = keys@;
            let ghost r0 = row@;
            proof {
                let t = all.take(it.index() as int + 1);
                assert(t.drop_last() =~= all.take(it.index() as int));
                assert(t.last() == r0);
            }
            if passes(row.metric_name.as_str(), &row.labels, &filters) {
                let key = series_key(row.metric_name.as_str(), &row.labels);
                if !holds_text(&keys, key.as_str()) {
                    let ghost k = key@;
                    keys.push(key);
                    found.push(row);
                    proof {
                        assert(series_views(found@) =~= series_views(before).push(r0));
                        assert(texts(keys@) =~= texts(keys0).push(k));
                        assert(keys_of_series(series_views(found@)) =~= keys_of_series(
                            series_views(before),
                        ).push(k));
                    }
                }
            }
        }
        *self = SeriesList { found, keys };
    }
}

/// The body that a list of series is answered with.
pub fn series_body(series: Vec<SeriesId>) -> (r: Json)
    ensures
        r.view() == success_json(
            JsonView::Array(
                series_views(series@).map_values(|s: SeriesView| metric_json(s.0, s.1)),
            ),
        ),
{
    let ghost want = series_views(series@).map_values(|s: SeriesView| metric_json(s.0, s.1));
    let mut items: Vec<Json> = Vec::new();
    let mut i: usize = 0;
    assert(json_views(items@) =~= want.take(0));
    while i < series.len()
        invariant
            want == series_views(series@).map_values(|s: SeriesView| metric_json(s.0, s.1)),
            i <= series@.len(),
            json_views(items@) == want.take(i as int),
        decreases series@.len() - i,
    {
        let ghost before = items@;
        let j = series_metric_obj(series[i].metric_name.as_str(), &series[i].labels);
        items.push(j);
        proof {
            assert(items@.drop_last() =~= before);
            assert(want[i as int] == j.view());
            assert(json_views(items@) =~= want.take(i as int + 1));
        }
        i += 1;
    }
    assert(want.take(i as int) =~= want);
    success(Json::Array(items))
}

/// Whether no two series have the same identifying text.
pub open spec fn all_different(s: Seq<SeriesView>) -> bool {
    forall|i: int, j: int|
        0 <= i < j < s.len() ==> #[trigger] keys_of_series(s)[i] != #[trigger] keys_of_series(s)[j]
}

/// However many selectors match a series, it is listed once.
pub proof fn law_series_are_listed_once(
    found: Seq<SeriesView>,
    rows: Seq<SeriesView>,
    sel: SelectorView,
)
    requires
        all_different(found),
    ensures
        all_different(with_rows(found, rows, sel)),
    decreases rows.len(),
{
    if rows.len() > 0 {
        law_series_are_listed_once(found, rows.drop_last(), sel);
        let before = with_rows(found, rows.drop_last(), sel);
        let after = with_series(before, rows.last());
        if after != before {
            assert(keys_of_series(after) =~= keys_of_series(before).push(
                key_text(rows.last().0, rows.last().1),
            ));
        }
    }
}

/// Every series that meets its selector's matchers is listed.
pub proof fn law_matching_series_are_listed(
    found: Seq<SeriesView>,
    rows: Seq<SeriesView>,
    sel: SelectorView,
    i: int,
)
    requires
        0 <= i < rows.len(),
        meets_all(rows[i].0, rows[i].1, row_matchers(sel.matchers)),
    ensures
        keys_of_series(with_rows(found, rows, sel)).contains(key_text(rows[i].0, rows[i].1)),
    decreases rows.len(),
{
    let rest = rows.drop_last();
    let before = with_rows(found, rest, sel);
    let after = with_rows(found, rows, sel);
    let k = key_text(rows[i].0, rows[i].1);
    if i < rest.len() {
        assert(rest[i] == rows[i]);
        law_matching_series_are_listed(found, rest, sel, i);
        let w = choose|w: int| 0 <= w < keys_of_series(before).len() && keys_of_series(before)[w] == k;
        assert(keys_of_series(after)[w] == k);
    } else if !keys_of_series(before).contains(k) {
        assert(keys_of_series(after)[before.len() as int] == k);
    }
}

} // verus!
