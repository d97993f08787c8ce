//! The rows that come back from SQL, and what becomes of them: regex matchers
//! are applied, and rows are gathered into series.

use vstd::prelude::*;
use vstd::string::StringExecFns;
use crate::labels::{lookup, Labels, Pairs};
use crate::prometheus::ast::{
    matcher_views, LabelMatcher, MatchOp, MatcherView, Selector, SelectorView,
};
use crate::prometheus::sql::{
    condition, conditions, metric_of, name_condition, predicates, NAME_LABEL,
};
use crate::text::same_text;

verus! {

/// One point of an instant query's result, one per series. The value is the bit
/// pattern of a double.
#[derive(Debug)]
pub struct InstantPoint {
    pub metric_name: String,
    pub labels: Labels,
    pub ts_us: i64,
    pub value: u64,
}

/// One series of a range query's result.
#[derive(Debug)]
pub struct RangePoints {
    pub metric_name: String,
    pub labels: Labels,
    pub points: Vec<(i64, u64)>,
}

/// The view of an `InstantPoint`, and of a row.
#[verifier::ext_equal]
pub struct PointView {
    pub metric_name: Seq<char>,
    pub labels: Pairs,
    pub ts_us: i64,
    pub value: u64,
}

/// The view of `RangePoints`.
#[verifier::ext_equal]
pub struct RangeView {
    pub metric_name: Seq<char>,
    pub labels: Pairs,
    pub points: Seq<(i64, u64)>,
}

impl View for InstantPoint {
    type V = PointView;

    open spec fn view(&self) -> PointView {
        PointView {
            metric_name: self.metric_name@,
            labels: self.labels@,
            ts_us: self.ts_us,
            value: self.value,
        }
    }
}

impl View for RangePoints {
    type V = RangeView;

    open spec fn view(&self) -> RangeView {
        RangeView {
            metric_name: self.metric_name@,
            labels: self.labels@,
            points: self.points@,
        }
    }
}

/// The views of a list of instant points.
pub open spec fn point_views(s: Seq<InstantPoint>) -> Seq<PointView> {
    s.map_values(|p: InstantPoint| p@)
}

/// The views of a list of series.
pub open spec fn range_views(s: Seq<RangePoints>) -> Seq<RangeView> {
    s.map_values(|p: RangePoints| p@)
}

impl Clone for InstantPoint {
    fn clone(&self) -> (r: InstantPoint)
        ensures
            r@ == self@,
    {
        InstantPoint {
            metric_name: self.metric_name.clone(),
            labels: self.labels.clone(),
            ts_us: self.ts_us,
            value: self.value,
        }
    }
}

// ---------- series identity ----------

/// `k=v` for each label, separated by commas.
pub open spec fn label_list(labels: Pairs) -> Seq<char>
    decreases labels.len(),
{
    if labels.len() == 0 {
        Seq::empty()
    } else {
        let last = labels.last().0 + "="@ + labels.last().1;
        if labels.len() == 1 {
            last
        } else {
            label_list(labels.drop_last()) + ","@ + last
        }
    }
}

/// The text that identifies a series: `metric{k=v,...}`.
pub open spec fn key_text(metric: Seq<char>, labels: Pairs) -> Seq<char> {
    metric + "{"@ + label_list(labels) + "}"@
}

/// `k=v` for each label, separated by commas, in name order.
pub fn label_list_text(labels: &Labels) -> (r: String)
    ensures
        r@ == label_list(labels@),
{
    let n: usize = labels.len();
    let mut r = String::new();
    let mut i: usize = 0;
    assert(r@ =~= label_list(labels@.take(0)));
    while i < n
        invariant
            n == labels@.len(),
            i <= n,
            r@ == label_list(labels@.take(i as int)),
        decreases n - i,
    {
        let ghost before = r@;
        proof {
            assert(labels@.take(i as int + 1).drop_last() =~= labels@.take(i as int));
            assert(labels@.take(i as int + 1).last() == labels@[i as int]);
        }
        if i > 0 {
            r.append(",");
        }
        let mut item = labels.name_at(i).clone();
        item.append("=");
        item.append(labels.value_at(i).as_str());
        r.append(item.as_str());
        i += 1;
        proof {
            if i == 1 {
                assert(before =~= Seq::empty());
            }
            assert(r@ =~= label_list(labels@.take(i as int)));
        }
    }
    assert(labels@.take(n as int) =~= labels@);
    r
}

/// The text that identifies a series: `metric{k=v,...}`, labels in name order.
pub fn series_key(metric_name: &str, labels: &Labels) -> (r: String)
    ensures
        r@ == key_text(metric_name@, labels@),
{
    let mut r = metric_name.to_string();
    r.append("{");
    r.append(label_list_text(labels).as_str());
    r.append("}");
    r
}

/// Whether labels can be told apart in a list of `k=v`: no name has an `=` or a
/// comma in it, and no value a comma.
pub open spec fn separable(labels: Pairs) -> bool {
    forall|i: int|
        0 <= i < labels.len() ==> !(#[trigger] labels[i]).0.contains('=') && !labels[i].0.contains(
            ',',
        ) && !labels[i].1.contains(',')
}

/// The text that identifies a series does so: two series have the same text only
/// if they have the same metric and the same labels.
pub proof fn law_series_key_identifies(m1: Seq<char>, l1: Pairs, m2: Seq<char>, l2: Pairs)
    requires
        !m1.contains('{'),
        !m2.contains('{'),
        separable(l1),
        separable(l2),
    ensures
        key_text(m1, l1) == key_text(m2, l2) <==> m1 == m2 && l1 == l2,
{
    if key_text(m1, l1) == key_text(m2, l2) {
        reveal_strlit("{");
        reveal_strlit("}");
        let a = label_list(l1);
        let b = label_list(l2);
        assert(key_text(m1, l1) =~= m1 + seq!['{'] + (a + seq!['}']));
        assert(key_text(m2, l2) =~= m2 + seq!['{'] + (b + seq!['}']));
        lemma_split_first(m1, a + seq!['}'], m2, b + seq!['}'], '{');
        assert(a =~= (a + seq!['}']).drop_last());
        assert(b =~= (b + seq!['}']).drop_last());
        lemma_label_list_injective(l1, l2);
    }
}

proof fn lemma_label_list_injective(a: Pairs, b: Pairs)
    requires
        separable(a),
        separable(b),
        label_list(a) == label_list(b),
    ensures
        a == b,
    decreases a.len(),
{
    reveal_strlit("=");
    reveal_strlit(",");
    let la = label_list(a);
    let lb = label_list(b);
    if a.len() > 0 {
        lemma_last_label(a);
    }
    if b.len() > 0 {
        lemma_last_label(b);
    }
    if a.len() == 0 || b.len() == 0 {
        assert(a =~= b);
    } else {
        let (ka, va) = a.last();
        let (kb, vb) = b.last();
        let ia = ka + seq!['='] + va;
        let ib = kb + seq!['='] + vb;
        if a.len() > 1 && b.len() > 1 {
            assert(la =~= label_list(a.drop_last()) + seq![','] + ia);
            assert(lb =~= label_list(b.drop_last()) + seq![','] + ib);
            lemma_split_last(label_list(a.drop_last()), ia, label_list(b.drop_last()), ib, ',');
            assert forall|i: int| 0 <= i < a.drop_last().len() implies !(#[trigger] a.drop_last()[i]).0.contains(
                '=',
            ) && !a.drop_last()[i].0.contains(',') && !a.drop_last()[i].1.contains(',') by {
                assert(a.drop_last()[i] == a[i]);
            }
            assert forall|i: int| 0 <= i < b.drop_last().len() implies !(#[trigger] b.drop_last()[i]).0.contains(
                '=',
            ) && !b.drop_last()[i].0.contains(',') && !b.drop_last()[i].1.contains(',') by {
                assert(b.drop_last()[i] == b[i]);
            }
            lemma_label_list_injective(a.drop_last(), b.drop_last());
        } else if a.len() == 1 && b.len() == 1 {
            assert(la =~= ia);
            assert(lb =~= ib);
            assert(a.drop_last() =~= b.drop_last());
        } else if a.len() == 1 {
            assert(lb[label_list(b.drop_last()).len() as int] == ',');
            assert(la =~= ia);
            assert(ia.contains(','));
        } else {
            assert(la[label_list(a.drop_last()).len() as int] == ',');
            assert(lb =~= ib);
            assert(ib.contains(','));
        }
        lemma_split_first(ka, va, kb, vb, '=');
        assert(a =~= a.drop_last().push(a.last()));
        assert(b =~= b.drop_last().push(b.last()));
    }
}

/// The last label of a list has no comma in its `k=v`, and makes the list's text
/// more than nothing.
proof fn lemma_last_label(a: Pairs)
    requires
        a.len() > 0,
        separable(a),
    ensures
        !(a.last().0 + seq!['='] + a.last().1).contains(','),
        !a.last().0.contains('='),
        label_list(a).len() > 0,
{
    reveal_strlit("=");
    reveal_strlit(",");
    let (k, v) = a.last();
    assert(a.last() == a[a.len() - 1]);
    let item = k + seq!['='] + v;
    assert forall|i: int| 0 <= i < item.len() implies item[i] != ',' by {
        if i < k.len() {
            assert(k.contains(k[i]));
        } else if i > k.len() {
            assert(v.contains(v[i - k.len() - 1]));
        }
    }
}

/// A text splits in one way at the first of some character.
proof fn lemma_split_first(a1: Seq<char>, b1: Seq<char>, a2: Seq<char>, b2: Seq<char>, c: char)
    requires
        a1 + seq![c] + b1 == a2 + seq![c] + b2,
        !a1.contains(c),
        !a2.contains(c),
    ensures
        a1 == a2,
        b1 == b2,
{
    let t = a1 + seq![c] + b1;
    assert(t[a1.len() as int] == c);
    assert((a2 + seq![c] + b2)[a2.len() as int] == c);
    if a1.len() < a2.len() {
        assert(a2[a1.len() as int] == c);
    }
    if a2.len() < a1.len() {
        assert(a1[a2.len() as int] == c);
    }
    assert(a1 =~= t.take(a1.len() as int));
    assert(a2 =~= t.take(a2.len() as int));
    assert(b1 =~= t.skip(a1.len() as int + 1));
    assert(b2 =~= t.skip(a2.len() as int + 1));
}

/// A text splits in one way at the last of some character.
proof fn lemma_split_last(a1: Seq<char>, b1: Seq<char>, a2: Seq<char>, b2: Seq<char>, c: char)
    requires
        a1 + seq![c] + b1 == a2 + seq![c] + b2,
        !b1.contains(c),
        !b2.contains(c),
    ensures
        a1 == a2,
        b1 == b2,
{
    let h1 = a1 + seq![c];
    let h2 = a2 + seq![c];
    let t = h1 + b1;
    let u = h2 + b2;
    assert(h1.len() == a1.len() + 1 && h2.len() == a2.len() + 1);
    assert(t.len() == h1.len() + b1.len() && u.len() == h2.len() + b2.len());
    assert(t[a1.len() as int] == c);
    assert(u[a2.len() as int] == c);
    if a1.len() < a2.len() {
        assert(t[a2.len() as int] == b1[a2.len() - h1.len()]);
        assert(b1.contains(c));
    }
    if a2.len() < a1.len() {
        assert(u[a1.len() as int] == b2[a1.len() - h2.len()]);
        assert(b2.contains(c));
    }
    assert(a1 =~= t.take(a1.len() as int));
    assert(a2 =~= t.take(a2.len() as int));
    assert(b1 =~= t.skip(a1.len() as int + 1));
    assert(b2 =~= t.skip(a2.len() as int + 1));
}

// ---------- regex matchers ----------

/// A compiled matcher of `promql_parser`.
#[verifier::external_type_specification]
#[verifier::external_body]
pub struct ExCompiledMatcher(promql_parser::label::Matcher);

/// The pattern a compiled matcher was made from.
pub uninterp spec fn compiled_pattern(m: promql_parser::label::Matcher) -> Seq<char>;

/// Whether `promql_parser` can compile a pattern.
pub uninterp spec fn is_pattern(pattern: Seq<char>) -> bool;

/// Whether a pattern, anchored at both ends, matches a text.
pub uninterp spec fn pattern_matches(pattern: Seq<char>, text: Seq<char>) -> bool;

/// `promql_parser::label::Matcher::new_matcher` for `=~`: the pattern compiled as a
/// fully anchored regular expression, `None` where it is none. Which patterns
/// are accepted is not spelled out.
#[verifier::external_body]
fn compile_pattern(pattern: &str) -> (r: Option<promql_parser::label::Matcher>)
    ensures
        r is Some == is_pattern(pattern@),
        r is Some ==> compiled_pattern(r->0) == pattern@,
{
    let id = promql_parser::parser::token::T_EQL_REGEX;
    promql_parser::label::Matcher::new_matcher(id, String::new(), pattern.to_string()).ok()
}

/// `promql_parser::label::Matcher::is_match` of a matcher compiled for `=~`:
/// whether the pattern matches. What it matches is not spelled out.
#[verifier::external_body]
fn compiled_matches(m: &promql_parser::label::Matcher, text: &str) -> (r: bool)
    ensures
        r == pattern_matches(compiled_pattern(*m), text@),
{
    m.is_match(text)
}

/// A matcher ready to be applied to rows: its pattern, where it has one, is
/// compiled once.
pub struct LabelFilter<'a> {
    matcher: &'a LabelMatcher,
    compiled: Option<promql_parser::label::Matcher>,
}

impl<'a> LabelFilter<'a> {
    /// The matcher that is applied.
    pub closed spec fn matcher(self) -> MatcherView {
        self.matcher@
    }

    #[verifier::type_invariant]
    spec fn is_compiled(self) -> bool {
        &&& self.compiled is Some ==> compiled_pattern(self.compiled->0) == self.matcher.value@
        &&& (self.matcher.op is Re || self.matcher.op is NotRe) ==> (self.compiled is Some
            == is_pattern(self.matcher.value@))
    }

    /// Make a matcher ready to be applied.
    pub fn new(matcher: &'a LabelMatcher) -> (r: LabelFilter<'a>)
        ensures
            r.matcher() == matcher@,
    {
        let compiled = match matcher.op {
            MatchOp::Re => compile_pattern(matcher.value.as_str()),
            MatchOp::NotRe => compile_pattern(matcher.value.as_str()),
            _ => None,
        };
        LabelFilter { matcher, compiled }
    }
}

/// Whether a text matches a pattern; a text that is no pattern matches nothing.
pub open spec fn regex_holds(pattern: Seq<char>, text: Seq<char>) -> bool {
    is_pattern(pattern) && pattern_matches(pattern, text)
}

/// Whether a text meets a matcher.
pub open spec fn text_matches(v: Seq<char>, m: MatcherView) -> bool {
    match m.op {
        MatchOp::Equal => v == m.value,
        MatchOp::NotEqual => v != m.value,
        MatchOp::Re => regex_holds(m.value, v),
        MatchOp::NotRe => !regex_holds(m.value, v),
    }
}

/// Whether a series' labels meet a matcher. A missing label counts as the empty
/// string, so that `{job!=""}` matches the series that have a `job`.
pub open spec fn label_matches(labels: Pairs, m: MatcherView) -> bool {
    text_matches(
        match lookup(labels, m.name) {
            Some(v) => v,
            None => Seq::empty(),
        },
        m,
    )
}

/// Whether a series meets a matcher: with its metric's name where the matcher is
/// on the name, else with its labels.
pub open spec fn series_matches(metric: Seq<char>, labels: Pairs, m: MatcherView) -> bool {
    if m.name == NAME_LABEL@ {
        text_matches(metric, m)
    } else {
        label_matches(labels, m)
    }
}

/// Whether a series' labels meet a matcher.
pub fn match_label(labels: &Labels, f: &LabelFilter) -> (r: bool)
    ensures
        r == label_matches(labels@, f.matcher()),
{
    let empty = String::new();
    assert(empty@ =~= Seq::empty());
    match labels.get(f.matcher.name.as_str()) {
        Some(v) => match_text(v.as_str(), f),
        None => match_text(empty.as_str(), f),
    }
}

/// Whether a series meets a matcher.
pub fn match_series(metric: &str, labels: &Labels, f: &LabelFilter) -> (r: bool)
    ensures
        r == series_matches(metric@, labels@, f.matcher()),
{
    if same_text(f.matcher.name.as_str(), NAME_LABEL) {
        match_text(metric, f)
    } else {
        match_label(labels, f)
    }
}

fn match_text(v: &str, f: &LabelFilter) -> (r: bool)
    ensures
        r == text_matches(v@, f.matcher()),
{
    proof {
        use_type_invariant(f);
    }
    match f.matcher.op {
        MatchOp::Equal => same_text(v, f.matcher.value.as_str()),
        MatchOp::NotEqual => !same_text(v, f.matcher.value.as_str()),
        MatchOp::Re => match &f.compiled {
            Some(c) => compiled_matches(c, v),
            None => false,
        },
        MatchOp::NotRe => match &f.compiled {
            Some(c) => !compiled_matches(c, v),
            None => true,
        },
    }
}

/// The matchers that SQL does not decide: those with a pattern.
pub open spec fn row_matchers(m: Seq<MatcherView>) -> Seq<MatcherView>
    decreases m.len(),
{
    if m.len() == 0 {
        Seq::empty()
    } else if m.last().op is Re || m.last().op is NotRe {
        row_matchers(m.drop_last()).push(m.last())
    } else {
        row_matchers(m.drop_last())
    }
}

/// The matchers of a list of filters.
pub open spec fn filter_views(s: Seq<LabelFilter>) -> Seq<MatcherView> {
    s.map_values(|f: LabelFilter| f.matcher())
}

/// The matchers of a selector that are applied to rows.
pub fn label_filters_for_selector<'a>(sel: &'a Selector) -> (r: Vec<LabelFilter<'a>>)
    ensures
        filter_views(r@) == row_matchers(sel@.matchers),
{
    let ghost all = sel@.matchers;
    let mut r: Vec<LabelFilter<'a>> = Vec::new();
    let mut i: usize = 0;
    assert(filter_views(r@) =~= row_matchers(all.take(0)));
    while i < sel.matchers.len()
        invariant
            all == matcher_views(sel.matchers@),
            i <= sel.matchers@.len(),
            filter_views(r@) == row_matchers(all.take(i as int)),
        decreases sel.matchers@.len() - i,
    {
        let ghost before = r@;
        let m = &sel.matchers[i];
        proof {
            assert(all.take(i as int + 1).drop_last() =~= all.take(i as int));
            assert(all.take(i as int + 1).last() == m@);
        }
        if m.op == MatchOp::Re || m.op == MatchOp::NotRe {
            let f = LabelFilter::new(m);
            r.push(f);
            assert(filter_views(r@) =~= filter_views(before).push(m@));
        }
        i += 1;
    }
    assert(all.take(i as int) =~= all);
    r
}

/// Whether a series meets every matcher.
pub open spec fn meets_all(metric: Seq<char>, labels: Pairs, m: Seq<MatcherView>) -> bool {
    forall|i: int| 0 <= i < m.len() ==> series_matches(metric, labels, #[trigger] m[i])
}

pub(crate) fn passes(metric: &str, labels: &Labels, filters: &Vec<LabelFilter>) -> (r: bool)
    ensures
        r == meets_all(metric@, labels@, filter_views(filters@)),
{
    let ghost m = filter_views(filters@);
    let mut i: usize = 0;
    while i < filters.len()
        invariant
            m == filter_views(filters@),
            i <= filters@.len(),
            forall|j: int| 0 <= j < i ==> series_matches(metric@, labels@, #[trigger] m[j]),
        decreases filters@.len() - i,
    {
        assert(m[i as int] == filters@[i as int].matcher());
        if !match_series(metric, labels, &filters[i]) {
            return false;
        }
        i += 1;
    }
    true
}

/// No matcher of a selector is passed over: each is a condition in SQL, is the
/// metric's name that SQL asks for, or is applied to the rows.
pub proof fn law_every_matcher_is_applied(sel: SelectorView, i: int)
    requires
        0 <= i < sel.matchers.len(),
    ensures
        ({
            let m = sel.matchers[i];
            let named = metric_of(sel);
            ||| m.name == NAME_LABEL@ && m.op is Equal && named == Some(m.value)
            ||| condition(named, m) is Some && predicates(sel).contains(condition(named, m)->0)
            ||| row_matchers(sel.matchers).contains(m)
        }),
{
    let named = metric_of(sel);
    lemma_matcher_applied(named, sel.matchers, i);
    let m = sel.matchers[i];
    if condition(named, m) is Some {
        let c = conditions(named, sel.matchers);
        let w = choose|w: int| 0 <= w < c.len() && c[w] == condition(named, m)->0;
        assert(predicates(sel)[name_condition(sel).len() + w] == c[w]);
    }
}

proof fn lemma_matcher_applied(named: Option<Seq<char>>, m: Seq<MatcherView>, i: int)
    requires
        0 <= i < m.len(),
    ensures
        condition(named, m[i]) is Some ==> conditions(named, m).contains(
            condition(named, m[i])->0,
        ),
        m[i].op is Re || m[i].op is NotRe ==> row_matchers(m).contains(m[i]),
    decreases m.len(),
{
    let c = conditions(named, m);
    let r = row_matchers(m);
    if i == m.len() - 1 {
        if condition(named, m[i]) is Some {
            assert(c[c.len() - 1] == condition(named, m[i])->0);
        }
        if m[i].op is Re || m[i].op is NotRe {
            assert(r[r.len() - 1] == m[i]);
        }
    } else {
        let c0 = conditions(named, m.drop_last());
        let r0 = row_matchers(m.drop_last());
        lemma_matcher_applied(named, m.drop_last(), i);
        if condition(named, m[i]) is Some {
            let w = choose|w: int| 0 <= w < c0.len() && c0[w] == condition(named, m[i])->0;
            assert(c[w] == c0[w]);
        }
        if m[i].op is Re || m[i].op is NotRe {
            let w = choose|w: int| 0 <= w < r0.len() && r0[w] == m[i];
            assert(r[w] == r0[w]);
        }
    }
}

// ---------- filtering rows ----------

/// The rows that are kept: those whose series meet the selector's regex matchers.
pub open spec fn kept_rows(rows: Seq<PointView>, sel: SelectorView) -> Seq<PointView> {
    rows.filter(|p: PointView| meets_all(p.metric_name, p.labels, row_matchers(sel.matchers)))
}

/// Drop the rows whose series do not meet the selector's regex matchers.
pub fn filter_rows(sel: &Selector, rows: Vec<InstantPoint>) -> (r: Vec<InstantPoint>)
    ensures
        point_views(r@) == kept_rows(point_views(rows@), sel@),
{
    let filters = label_filters_for_selector(sel);
    let ghost all = point_views(rows@);
    let ghost keep = |p: PointView|
        meets_all(p.metric_name, p.labels, row_matchers(sel@.matchers));
    let mut r: Vec<InstantPoint> = Vec::new();
    assert(point_views(r@) =~= all.take(0).filter(keep));
    for p in it: rows
        invariant
            it.seq() == rows@,
            all == point_views(rows@),
            keep == (|p: PointView|
                meets_all(p.metric_name, p.labels, row_matchers(sel@.matchers))),
            filter_views(filters@) == row_matchers(sel@.matchers),
            point_views(r@) == all.take(it.index() as int).filter(keep),
            all.take(all.len() as int) =~= all,
    {
        let ghost before = r@;
        proof {
            reveal(Seq::filter);
            let t = all.take(it.index() as int + 1);
            assert(t.drop_last() =~= all.take(it.index() as int));
            assert(t.last() == p@);
        }
        if passes(p.metric_name.as_str(), &p.labels, &filters) {
            r.push(p);
            assert(point_views(r@) =~= point_views(before).push(p@));
        }
    }
    r
}

} // verus!
