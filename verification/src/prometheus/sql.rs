//! The SQL of query plans.
//!
//! The `samples` table is aliased `sa` and the `series` table `s` throughout. A
//! label is read as `element_at(s.labels, '<key>')[1]`.

use vstd::prelude::*;
use vstd::string::StringExecFns;
use crate::calendar::{ts_literal, us_to_ts_lit};
use crate::prometheus::ast::{
    matcher_views, Grouping, MatchOp, LabelMatcher, MatcherView, ModifierView, Selector, SelectorView,
};
use crate::prometheus::plan::{compares, AggOp, BinOp};
use crate::text::{chars_of, decimal, join, joined, push_decimal, same_text, texts};

verus! {

/// Prometheus's default lookback: an instant query at `t` looks this far back for
/// the latest sample of each series. Five minutes.
pub const LOOKBACK_US: i64 = 300_000_000;

/// The name of the metric among the matchers of a selector.
pub const NAME_LABEL: &'static str = "__name__";

// ---------- quoting ----------

/// A text with every quote doubled, as it stands between the quotes of a SQL
/// string literal.
pub open spec fn escaped(s: Seq<char>) -> Seq<char>
    decreases s.len(),
{
    if s.len() == 0 {
        Seq::empty()
    } else if s.last() == '\'' {
        escaped(s.drop_last()).push('\'').push('\'')
    } else {
        escaped(s.drop_last()).push(s.last())
    }
}

/// Double every quote.
pub fn sql_escape(s: &str) -> (r: String)
    ensures
        r@ == escaped(s@),
{
    let chars = chars_of(s);
    let mut r = String::new();
    let mut i: usize = 0;
    assert(r@ =~= escaped(s@.take(0)));
    while i < chars.len()
        invariant
            chars@ == s@,
            i <= chars@.len(),
            r@ == escaped(s@.take(i as int)),
        decreases chars@.len() - i,
    {
        assert(s@.take(i as int + 1).drop_last() =~= s@.take(i as int));
        if chars[i] == '\'' {
            r.push('\'');
        }
        r.push(chars[i]);
        i += 1;
    }
    assert(s@.take(i as int) =~= s@);
    r
}

// ---------- selectors ----------

/// Where the first matcher stands that says which metric, if there is one.
pub open spec fn name_matcher(m: Seq<MatcherView>) -> Option<MatcherView>
    decreases m.len(),
{
    if m.len() == 0 {
        None
    } else if m[0].name == NAME_LABEL@ && m[0].op is Equal {
        Some(m[0])
    } else {
        name_matcher(m.skip(1))
    }
}

/// The metric a selector names: `metric{...}` first, else `{__name__="metric"}`.
pub open spec fn metric_of(sel: SelectorView) -> Option<Seq<char>> {
    match sel.name {
        Some(n) => Some(n),
        None => match name_matcher(sel.matchers) {
            Some(m) => Some(m.value),
            None => None,
        },
    }
}

/// The metric a selector names, if it names one.
pub fn effective_metric_name<'a>(sel: &'a Selector) -> (r: Option<&'a String>)
    ensures
        r is Some == metric_of(sel@) is Some,
        r is Some ==> r->0@ == metric_of(sel@)->0,
{
    if let Some(n) = &sel.name {
        return Some(n);
    }
    let ghost all = sel@.matchers;
    let mut i: usize = 0;
    assert(all.skip(0) =~= all);
    while i < sel.matchers.len()
        invariant
            all == matcher_views(sel.matchers@),
            all == sel@.matchers,
            sel@.name is None,
            i <= sel.matchers@.len(),
            name_matcher(all) == name_matcher(all.skip(i as int)),
        decreases sel.matchers@.len() - i,
    {
        let m = &sel.matchers[i];
        assert(all.skip(i as int)[0] == m@);
        assert(all.skip(i as int).skip(1) =~= all.skip(i as int + 1));
        if same_text(m.name.as_str(), NAME_LABEL) && m.op == MatchOp::Equal {
            return Some(&m.value);
        }
        i += 1;
    }
    None
}

/// How a label is read.
pub open spec fn label_text(key: Seq<char>) -> Seq<char> {
    "element_at(s.labels, '"@ + escaped(key) + "')[1]"@
}

/// How a label is read.
pub fn label_expr(key: &str) -> (r: String)
    ensures
        r@ == label_text(key@),
{
    let mut r = "element_at(s.labels, '".to_string();
    r.append(sql_escape(key).as_str());
    r.append("')[1]");
    r
}

/// The condition a matcher puts on the series, for the matchers that SQL
/// decides. For `!=` a missing label counts as the empty string; `=` asks for the
/// label. A matcher on the name is a condition on the metric's name, but where
/// `named` already says the same.
pub open spec fn condition(named: Option<Seq<char>>, m: MatcherView) -> Option<Seq<char>> {
    if m.name == NAME_LABEL@ {
        match m.op {
            MatchOp::Equal => if named == Some(m.value) {
                None
            } else {
                Some("s.metric_name = '"@ + escaped(m.value) + "'"@)
            },
            MatchOp::NotEqual => Some("s.metric_name != '"@ + escaped(m.value) + "'"@),
            MatchOp::Re => None,
            MatchOp::NotRe => None,
        }
    } else {
        match m.op {
            MatchOp::Equal => Some(label_text(m.name) + " = '"@ + escaped(m.value) + "'"@),
            MatchOp::NotEqual => Some(
                "COALESCE("@ + label_text(m.name) + ", '') != '"@ + escaped(m.value) + "'"@,
            ),
            MatchOp::Re => None,
            MatchOp::NotRe => None,
        }
    }
}

/// The conditions of a list of matchers.
pub open spec fn conditions(named: Option<Seq<char>>, m: Seq<MatcherView>) -> Seq<Seq<char>>
    decreases m.len(),
{
    if m.len() == 0 {
        Seq::empty()
    } else {
        match condition(named, m.last()) {
            Some(c) => conditions(named, m.drop_last()).push(c),
            None => conditions(named, m.drop_last()),
        }
    }
}

/// The condition on the metric's name, if the selector names one.
pub open spec fn name_condition(sel: SelectorView) -> Seq<Seq<char>> {
    match metric_of(sel) {
        Some(n) => seq!["s.metric_name = '"@ + escaped(n) + "'"@],
        None => Seq::empty(),
    }
}

/// The conditions of a selector: its metric's name first, then its matchers.
/// Regex matchers are left out; they are applied to the rows that come back.
pub open spec fn predicates(sel: SelectorView) -> Seq<Seq<char>> {
    name_condition(sel) + conditions(metric_of(sel), sel.matchers)
}

/// The condition on the metric's name.
pub fn name_predicate(name: &str) -> (r: String)
    ensures
        r@ == "s.metric_name = '"@ + escaped(name@) + "'"@,
{
    let mut r = "s.metric_name = '".to_string();
    r.append(sql_escape(name).as_str());
    r.append("'");
    r
}

fn matcher_predicate(named: Option<&String>, m: &LabelMatcher) -> (r: Option<String>)
    ensures
        ({
            let want = condition(
                match named {
                    Some(n) => Some(n@),
                    None => None,
                },
                m@,
            );
            &&& r is Some == want is Some
            &&& r is Some ==> r->0@ == want->0
        }),
{
    if same_text(m.name.as_str(), NAME_LABEL) {
        return match m.op {
            MatchOp::Equal => {
                if let Some(n) = named {
                    if same_text(n.as_str(), m.value.as_str()) {
                        return None;
                    }
                }
                Some(name_predicate(m.value.as_str()))
            },
            MatchOp::NotEqual => {
                let mut r = "s.metric_name != '".to_string();
                r.append(sql_escape(m.value.as_str()).as_str());
                r.append("'");
                Some(r)
            },
            MatchOp::Re => None,
            MatchOp::NotRe => None,
        };
    }
    match m.op {
        MatchOp::Equal => {
            let mut r = label_expr(m.name.as_str());
            r.append(" = '");
            r.append(sql_escape(m.value.as_str()).as_str());
            r.append("'");
            Some(r)
        },
        MatchOp::NotEqual => {
            let mut r = "COALESCE(".to_string();
            r.append(label_expr(m.name.as_str()).as_str());
            r.append(", '') != '");
            r.append(sql_escape(m.value.as_str()).as_str());
            r.append("'");
            Some(r)
        },
        MatchOp::Re => None,
        MatchOp::NotRe => None,
    }
}

/// The conditions of a selector. The time range is not among them; callers add
/// it.
pub fn selector_predicates(sel: &Selector) -> (r: Vec<String>)
    ensures
        texts(r@) == predicates(sel@),
{
    let mut conds: Vec<String> = Vec::new();
    let named = effective_metric_name(sel);
    if let Some(name) = named {
        conds.push(name_predicate(name.as_str()));
    }
    let ghost head = name_condition(sel@);
    let ghost all = sel@.matchers;
    let ghost name = metric_of(sel@);
    let mut i: usize = 0;
    assert(texts(conds@) =~= head + conditions(name, all.take(0)));
    while i < sel.matchers.len()
        invariant
            all == matcher_views(sel.matchers@),
            i <= sel.matchers@.len(),
            named is Some == name is Some,
            named is Some ==> named->0@ == name->0,
            texts(conds@) == head + conditions(name, all.take(i as int)),
        decreases sel.matchers@.len() - i,
    {
        let ghost before = conds@;
        proof {
            assert(all.take(i as int + 1).drop_last() =~= all.take(i as int));
            assert(all.take(i as int + 1).last() == sel.matchers@[i as int]@);
        }
        if let Some(c) = matcher_predicate(named, &sel.matchers[i]) {
            conds.push(c);
            assert(texts(conds@) =~= texts(before).push(c@));
        }
        i += 1;
        assert(texts(conds@) =~= head + conditions(name, all.take(i as int)));
    }
    assert(all.take(i as int) =~= all);
    conds
}

/// The condition on the time range, both ends included.
pub open spec fn time_condition(from_us: i64, to_us: i64) -> Seq<char> {
    "sa.timestamp BETWEEN TIMESTAMP '"@ + ts_literal(from_us) + "' AND TIMESTAMP '"@ + ts_literal(
        to_us,
    ) + "'"@
}

/// The conditions of a selector and of a time range, one after another.
pub open spec fn where_conditions(sel: SelectorView, from_us: i64, to_us: i64) -> Seq<char> {
    joined(predicates(sel).push(time_condition(from_us, to_us)), " AND "@)
}

/// The conditions of a selector and of a time range, one after another.
pub fn where_list(sel: &Selector, from_us: i64, to_us: i64) -> (r: String)
    ensures
        r@ == where_conditions(sel@, from_us, to_us),
{
    let mut t = "sa.timestamp BETWEEN TIMESTAMP '".to_string();
    t.append(us_to_ts_lit(from_us).as_str());
    t.append("' AND TIMESTAMP '");
    t.append(us_to_ts_lit(to_us).as_str());
    t.append("'");
    let mut conds = selector_predicates(sel);
    let ghost before = conds@;
    conds.push(t);
    assert(texts(conds@) =~= texts(before).push(t@));
    join(&conds, " AND ")
}

/// The labels a grouping retains, where they are known at planning time.
pub open spec fn group_keys(modifier: Option<&Grouping>) -> Seq<Seq<char>> {
    match modifier {
        Some(g) => match g@ {
            ModifierView::Include(l) => l,
            ModifierView::Exclude(_) => Seq::empty(),
        },
        None => Seq::empty(),
    }
}

/// The labels that a grouping retains: those of `by (...)`, else none.
pub fn aggregate_group_keys(modifier: Option<&Grouping>) -> (r: Vec<String>)
    ensures
        texts(r@) == group_keys(modifier),
{
    let mut r: Vec<String> = Vec::new();
    match modifier {
        Some(Grouping::Include(l)) => {
            let mut i: usize = 0;
            assert(texts(r@) =~= texts(l@).take(0));
            while i < l.len()
                invariant
                    i <= l@.len(),
                    texts(r@) == texts(l@).take(i as int),
                decreases l@.len() - i,
            {
                let ghost before = r@;
                r.push(l[i].clone());
                i += 1;
                assert(texts(r@) =~= texts(before).push(l@[i as int - 1]@));
                assert(texts(r@) =~= texts(l@).take(i as int));
            }
            assert(texts(l@).take(i as int) =~= texts(l@));
        },
        _ => {
            assert(texts(r@) =~= Seq::empty());
        },
    }
    r
}

/// How the labels are read, one by one.
pub open spec fn label_texts(keys: Seq<Seq<char>>) -> Seq<Seq<char>> {
    keys.map_values(|k: Seq<char>| label_text(k))
}

/// How the labels are read, one by one.
pub fn label_exprs(keys: &Vec<String>) -> (r: Vec<String>)
    ensures
        texts(r@) == label_texts(texts(keys@)),
{
    let mut r: Vec<String> = Vec::new();
    let ghost all = label_texts(texts(keys@));
    let mut i: usize = 0;
    assert(texts(r@) =~= all.take(0));
    while i < keys.len()
        invariant
            all == label_texts(texts(keys@)),
            i <= keys@.len(),
            texts(r@) == all.take(i as int),
        decreases keys@.len() - i,
    {
        let ghost before = r@;
        r.push(label_expr(keys[i].as_str()));
        i += 1;
        assert(texts(r@) =~= texts(before).push(all[i as int - 1]));
        assert(texts(r@) =~= all.take(i as int));
    }
    assert(all.take(i as int) =~= all);
    r
}

/// The labels as selected columns: each under the name `lbl_<place>`, each
/// followed by the separator.
pub open spec fn label_columns(keys: Seq<Seq<char>>) -> Seq<char>
    decreases keys.len(),
{
    if keys.len() == 0 {
        Seq::empty()
    } else {
        label_columns(keys.drop_last()) + label_text(keys.last()) + " AS lbl_"@ + decimal(
            (keys.len() - 1) as nat,
        ) + ", "@
    }
}

/// The labels as selected columns.
pub fn select_labels(keys: &Vec<String>) -> (r: String)
    ensures
        r@ == label_columns(texts(keys@)),
{
    let mut r = String::new();
    let ghost all = texts(keys@);
    let mut i: usize = 0;
    assert(r@ =~= label_columns(all.take(0)));
    while i < keys.len()
        invariant
            all == texts(keys@),
            i <= keys@.len(),
            r@ == label_columns(all.take(i as int)),
        decreases keys@.len() - i,
    {
        proof {
            assert(all.take(i as int + 1).drop_last() =~= all.take(i as int));
            assert(all.take(i as int + 1).last() == keys@[i as int]@);
        }
        r.append(label_expr(keys[i].as_str()).as_str());
        r.append(" AS lbl_");
        push_decimal(&mut r, i as u64);
        r.append(", ");
        i += 1;
    }
    assert(all.take(i as int) =~= all);
    r
}

// ---------- operators ----------

/// The aggregate call on a value. A count is cast, so that the result column is
/// a double as it is for the others.
pub open spec fn agg_call(op: AggOp, value: Seq<char>) -> Seq<char> {
    match op {
        AggOp::Sum => "SUM("@ + value + ")"@,
        AggOp::Avg => "AVG("@ + value + ")"@,
        AggOp::Min => "MIN("@ + value + ")"@,
        AggOp::Max => "MAX("@ + value + ")"@,
        AggOp::Count => "CAST(COUNT(*) AS DOUBLE)"@,
    }
}

fn wrap(head: &str, value: &str, tail: &str) -> (r: String)
    ensures
        r@ == head@ + value@ + tail@,
{
    let mut r = head.to_string();
    r.append(value);
    r.append(tail);
    r
}

/// The aggregate call on a value.
pub fn agg_call_sql(op: AggOp, value_expr: &str) -> (r: String)
    ensures
        r@ == agg_call(op, value_expr@),
{
    match op {
        AggOp::Sum => wrap("SUM(", value_expr, ")"),
        AggOp::Avg => wrap("AVG(", value_expr, ")"),
        AggOp::Min => wrap("MIN(", value_expr, ")"),
        AggOp::Max => wrap("MAX(", value_expr, ")"),
        AggOp::Count => "CAST(COUNT(*) AS DOUBLE)".to_string(),
    }
}

/// SQL's comparison for a comparing operator; `=` for one that does not compare.
pub open spec fn comparison(op: BinOp) -> Seq<char> {
    match op {
        BinOp::Eq => "="@,
        BinOp::Ne => "<>"@,
        BinOp::Lt => "<"@,
        BinOp::Le => "<="@,
        BinOp::Gt => ">"@,
        BinOp::Ge => ">="@,
        _ => "="@,
    }
}

/// SQL's comparison for a comparing operator.
pub fn cmp_op_sql(op: BinOp) -> (r: &'static str)
    ensures
        r@ == comparison(op),
{
    match op {
        BinOp::Eq => "=",
        BinOp::Ne => "<>",
        BinOp::Lt => "<",
        BinOp::Le => "<=",
        BinOp::Gt => ">",
        BinOp::Ge => ">=",
        _ => "=",
    }
}

/// The value of a binary operation. A comparison with `bool` is 1 or 0; a
/// comparison without it filters rows instead, and has no value of its own.
pub open spec fn binop_value(op: BinOp, l: Seq<char>, r: Seq<char>, return_bool: bool) -> Seq<char> {
    if compares(op) && return_bool {
        "CAST(CASE WHEN "@ + l + " "@ + comparison(op) + " "@ + r
            + " THEN 1.0 ELSE 0.0 END AS DOUBLE)"@
    } else {
        match op {
            BinOp::Add => "("@ + l + ") + ("@ + r + ")"@,
            BinOp::Sub => "("@ + l + ") - ("@ + r + ")"@,
            BinOp::Mul => "("@ + l + ") * ("@ + r + ")"@,
            BinOp::Div => "("@ + l + ") / ("@ + r + ")"@,
            BinOp::Mod => "("@ + l + ") % ("@ + r + ")"@,
            BinOp::Pow => "power(("@ + l + "), ("@ + r + "))"@,
            _ => "CAST(0.0 AS DOUBLE)"@,
        }
    }
}

fn infix(head: &str, l: &str, mid: &str, r: &str, tail: &str) -> (out: String)
    ensures
        out@ == head@ + l@ + mid@ + r@ + tail@,
{
    let mut out = head.to_string();
    out.append(l);
    out.append(mid);
    out.append(r);
    out.append(tail);
    out
}

/// The value of a binary operation.
pub fn binop_value_sql(op: BinOp, lhs_sql: &str, rhs_sql: &str, return_bool: bool) -> (r: String)
    ensures
        r@ == binop_value(op, lhs_sql@, rhs_sql@, return_bool),
{
    if op.is_comparison() && return_bool {
        let mut r = "CAST(CASE WHEN ".to_string();
        r.append(lhs_sql);
        r.append(" ");
        r.append(cmp_op_sql(op));
        r.append(" ");
        r.append(rhs_sql);
        r.append(" THEN 1.0 ELSE 0.0 END AS DOUBLE)");
        return r;
    }
    match op {
        BinOp::Add => infix("(", lhs_sql, ") + (", rhs_sql, ")"),
        BinOp::Sub => infix("(", lhs_sql, ") - (", rhs_sql, ")"),
        BinOp::Mul => infix("(", lhs_sql, ") * (", rhs_sql, ")"),
        BinOp::Div => infix("(", lhs_sql, ") / (", rhs_sql, ")"),
        BinOp::Mod => infix("(", lhs_sql, ") % (", rhs_sql, ")"),
        BinOp::Pow => infix("power((", lhs_sql, "), (", rhs_sql, "))"),
        _ => "CAST(0.0 AS DOUBLE)".to_string(),
    }
}

// ---------- laws ----------

/// What the body of a SQL string literal denotes: a doubled quote is a quote. A
/// quote that is not doubled cannot stand in it.
pub open spec fn literal_value(t: Seq<char>) -> Option<Seq<char>>
    decreases t.len(),
{
    if t.len() == 0 {
        Some(Seq::empty())
    } else if t[0] != '\'' {
        match literal_value(t.skip(1)) {
            Some(v) => Some(seq![t[0]] + v),
            None => None,
        }
    } else if t.len() > 1 && t[1] == '\'' {
        match literal_value(t.skip(2)) {
            Some(v) => Some(seq!['\''] + v),
            None => None,
        }
    } else {
        None
    }
}

/// Where the string literal ends whose body starts `t`: at the first quote that
/// is not doubled.
pub open spec fn literal_end(t: Seq<char>) -> int
    decreases t.len(),
{
    if t.len() == 0 {
        0
    } else if t[0] != '\'' {
        1 + literal_end(t.skip(1))
    } else if t.len() > 1 && t[1] == '\'' {
        2 + literal_end(t.skip(2))
    } else {
        0
    }
}

proof fn lemma_escaped_first(s: Seq<char>)
    requires
        s.len() > 0,
    ensures
        escaped(s) == (if s[0] == '\'' {
            seq!['\'', '\'']
        } else {
            seq![s[0]]
        }) + escaped(s.skip(1)),
    decreases s.len(),
{
    let head = if s[0] == '\'' {
        seq!['\'', '\'']
    } else {
        seq![s[0]]
    };
    if s.len() == 1 {
        assert(s.drop_last() =~= Seq::empty());
        assert(s.skip(1) =~= Seq::empty());
        assert(escaped(s) =~= head + escaped(s.skip(1)));
    } else {
        lemma_escaped_first(s.drop_last());
        assert(s.drop_last().skip(1) =~= s.skip(1).drop_last());
        assert(s.skip(1).last() == s.last());
        assert(escaped(s) =~= head + escaped(s.skip(1)));
    }
}

/// Whatever a text holds, as the body of a SQL string literal it denotes itself.
pub proof fn law_literals_denote_what_was_escaped(s: Seq<char>)
    ensures
        literal_value(escaped(s)) == Some(s),
    decreases s.len(),
{
    if s.len() > 0 {
        lemma_escaped_first(s);
        law_literals_denote_what_was_escaped(s.skip(1));
        let rest = escaped(s.skip(1));
        let t = escaped(s);
        if s[0] == '\'' {
            assert(t.skip(2) =~= rest);
        } else {
            assert(t.skip(1) =~= rest);
        }
        assert(seq![s[0]] + s.skip(1) =~= s);
    }
}

/// A text cannot end the literal it stands in: the literal ends with the quote
/// that was put behind the text, whatever the text holds.
pub proof fn law_literals_end_where_they_were_closed(s: Seq<char>, after: Seq<char>)
    requires
        after.len() == 0 || after[0] != '\'',
    ensures
        literal_end(escaped(s) + seq!['\''] + after) == escaped(s).len(),
    decreases s.len(),
{
    let t = escaped(s) + seq!['\''] + after;
    if s.len() == 0 {
        assert(t[0] == '\'');
        if after.len() > 0 {
            assert(t[1] == after[0]);
        }
    } else {
        lemma_escaped_first(s);
        law_literals_end_where_they_were_closed(s.skip(1), after);
        let rest = escaped(s.skip(1)) + seq!['\''] + after;
        if s[0] == '\'' {
            assert(t.skip(2) =~= rest);
            assert(t[0] == '\'' && t[1] == '\'');
        } else {
            assert(t.skip(1) =~= rest);
            assert(t[0] == s[0]);
        }
    }
}

} // verus!
