//! PromQL expressions, and how a query's text becomes one.
//!
//! The grammar is `promql_parser`'s. Its syntax tree is opaque here, so it is
//! read node by node into the expression below, which keeps what query planning
//! looks at: operators by their text, numbers by their bit patterns, ranges in
//! microseconds.

use promql_parser::parser::Expr as Parsed;
use vstd::prelude::*;
use vstd::string::StringExecFns;
use crate::prometheus::durations::{
    has_oversized_duration, oversized_duration, shorten_durations, shortened,
};
use crate::prometheus::error::{bad_data, ErrorView, PromError};
use crate::text::texts;

verus! {

/// How a matcher compares.
#[derive(Debug, Clone, Copy, PartialEq, Eq, Structural)]
pub enum MatchOp {
    Equal,
    NotEqual,
    Re,
    NotRe,
}

/// A condition on one label. For `Re` and `NotRe` the value is the pattern.
#[derive(Debug)]
pub struct LabelMatcher {
    pub op: MatchOp,
    pub name: String,
    pub value: String,
}

/// `metric{label="v", ...}`
#[derive(Debug)]
pub struct Selector {
    pub name: Option<String>,
    pub matchers: Vec<LabelMatcher>,
}

/// `by (...)` or `without (...)`
#[derive(Debug)]
pub enum Grouping {
    Include(Vec<String>),
    Exclude(Vec<String>),
}

/// A PromQL expression.
#[derive(Debug)]
pub enum QueryExpr {
    Aggregate {
        op: String,
        expr: Box<QueryExpr>,
        param: Option<Box<QueryExpr>>,
        modifier: Option<Grouping>,
    },
    Unary(Box<QueryExpr>),
    Binary { op: String, lhs: Box<QueryExpr>, rhs: Box<QueryExpr>, return_bool: bool },
    Paren(Box<QueryExpr>),
    Subquery(Box<QueryExpr>),
    NumberLiteral(u64),
    StringLiteral,
    VectorSelector(Selector),
    MatrixSelector { vs: Selector, range_us: u128 },
    Call { func: String, args: Vec<QueryExpr> },
    Extension,
}

// ---------- views ----------

/// The view of a `LabelMatcher`.
#[verifier::ext_equal]
pub struct MatcherView {
    pub op: MatchOp,
    pub name: Seq<char>,
    pub value: Seq<char>,
}

/// The view of a `Selector`.
#[verifier::ext_equal]
pub struct SelectorView {
    pub name: Option<Seq<char>>,
    pub matchers: Seq<MatcherView>,
}

/// The view of a `Grouping`.
#[verifier::ext_equal]
pub enum ModifierView {
    Include(Seq<Seq<char>>),
    Exclude(Seq<Seq<char>>),
}

/// The view of an `QueryExpr`.
#[verifier::ext_equal]
pub enum ExprView {
    Aggregate {
        op: Seq<char>,
        expr: Box<ExprView>,
        param: Option<Box<ExprView>>,
        modifier: Option<ModifierView>,
    },
    Unary(Box<ExprView>),
    Binary { op: Seq<char>, lhs: Box<ExprView>, rhs: Box<ExprView>, return_bool: bool },
    Paren(Box<ExprView>),
    Subquery(Box<ExprView>),
    NumberLiteral(u64),
    StringLiteral,
    VectorSelector(SelectorView),
    MatrixSelector { vs: SelectorView, range_us: u128 },
    Call { func: Seq<char>, args: Seq<ExprView> },
    Extension,
}

/// The text of an optional string.
pub open spec fn opt_text(s: Option<String>) -> Option<Seq<char>> {
    match s {
        Some(t) => Some(t@),
        None => None,
    }
}

impl View for LabelMatcher {
    type V = MatcherView;

    open spec fn view(&self) -> MatcherView {
        MatcherView { op: self.op, name: self.name@, value: self.value@ }
    }
}

/// The views of a list of matchers.
pub open spec fn matcher_views(s: Seq<LabelMatcher>) -> Seq<MatcherView> {
    s.map_values(|m: LabelMatcher| m@)
}

impl View for Selector {
    type V = SelectorView;

    open spec fn view(&self) -> SelectorView {
        SelectorView { name: opt_text(self.name), matchers: matcher_views(self.matchers@) }
    }
}

impl View for Grouping {
    type V = ModifierView;

    open spec fn view(&self) -> ModifierView {
        match *self {
            Grouping::Include(l) => ModifierView::Include(texts(l@)),
            Grouping::Exclude(l) => ModifierView::Exclude(texts(l@)),
        }
    }
}

impl QueryExpr {
    /// The view of an expression.
    pub open spec fn view(self) -> ExprView
        decreases self,
    {
        match self {
            QueryExpr::Aggregate { op, expr, param, modifier } => ExprView::Aggregate {
                op: op@,
                expr: Box::new(expr.view()),
                param: match param {
                    Some(p) => Some(Box::new(p.view())),
                    None => None,
                },
                modifier: match modifier {
                    Some(m) => Some(m@),
                    None => None,
                },
            },
            QueryExpr::Unary(e) => ExprView::Unary(Box::new(e.view())),
            QueryExpr::Binary { op, lhs, rhs, return_bool } => ExprView::Binary {
                op: op@,
                lhs: Box::new(lhs.view()),
                rhs: Box::new(rhs.view()),
                return_bool,
            },
            QueryExpr::Paren(e) => ExprView::Paren(Box::new(e.view())),
            QueryExpr::Subquery(e) => ExprView::Subquery(Box::new(e.view())),
            QueryExpr::NumberLiteral(bits) => ExprView::NumberLiteral(bits),
            QueryExpr::StringLiteral => ExprView::StringLiteral,
            QueryExpr::VectorSelector(v) => ExprView::VectorSelector(v@),
            QueryExpr::MatrixSelector { vs, range_us } => ExprView::MatrixSelector { vs: vs@, range_us },
            QueryExpr::Call { func, args } => ExprView::Call { func: func@, args: expr_views(args@) },
            QueryExpr::Extension => ExprView::Extension,
        }
    }
}

/// The views of a list of expressions.
pub open spec fn expr_views(s: Seq<QueryExpr>) -> Seq<ExprView>
    decreases s,
{
    if s.len() == 0 {
        Seq::empty()
    } else {
        expr_views(s.drop_last()).push(s.last().view())
    }
}

proof fn lemma_expr_views(s: Seq<QueryExpr>)
    ensures
        expr_views(s).len() == s.len(),
        forall|i: int| 0 <= i < s.len() ==> #[trigger] expr_views(s)[i] == s[i].view(),
    decreases s.len(),
{
    if s.len() > 0 {
        lemma_expr_views(s.drop_last());
    }
}

// ---------- the parser's tree ----------

/// A node of `promql_parser`'s tree.
#[verifier::external_type_specification]
#[verifier::external_body]
pub struct ExParsedExpr(promql_parser::parser::Expr);

/// An aggregation of `promql_parser`'s tree.
#[verifier::external_type_specification]
#[verifier::external_body]
pub struct ExParsedAggregate(promql_parser::parser::AggregateExpr);

/// A binary operation of `promql_parser`'s tree.
#[verifier::external_type_specification]
#[verifier::external_body]
pub struct ExParsedBinary(promql_parser::parser::BinaryExpr);

/// A selector of `promql_parser`'s tree.
#[verifier::external_type_specification]
#[verifier::external_body]
pub struct ExParsedSelector(promql_parser::parser::VectorSelector);

/// A `by` or `without` of `promql_parser`'s tree.
#[verifier::external_type_specification]
#[verifier::external_body]
pub struct ExParsedModifier(promql_parser::parser::LabelModifier);

/// The expression that a node of the parser's tree holds.
pub uninterp spec fn parsed_tree(e: promql_parser::parser::Expr) -> ExprView;

/// The expression that an aggregation of the parser's tree holds.
pub uninterp spec fn parsed_aggregate(e: promql_parser::parser::AggregateExpr) -> ExprView;

/// The expression that a binary operation of the parser's tree holds.
pub uninterp spec fn parsed_binary(e: promql_parser::parser::BinaryExpr) -> ExprView;

/// The selector that a selector of the parser's tree holds.
pub uninterp spec fn parsed_selector(e: promql_parser::parser::VectorSelector) -> SelectorView;

/// The modifier that a modifier of the parser's tree holds.
pub uninterp spec fn parsed_modifier(e: promql_parser::parser::LabelModifier) -> ModifierView;

/// What `promql_parser::parser::parse` makes of a query.
pub uninterp spec fn promql_parse(query: Seq<char>) -> Result<ExprView, Seq<char>>;

/// One node of the parser's tree, with its children still in the parser's form.
enum Node<'a> {
    Aggregate(&'a promql_parser::parser::AggregateExpr),
    Unary(&'a promql_parser::parser::Expr),
    Binary(&'a promql_parser::parser::BinaryExpr),
    Paren(&'a promql_parser::parser::Expr),
    Subquery(&'a promql_parser::parser::Expr),
    NumberLiteral(u64),
    StringLiteral,
    VectorSelector(&'a promql_parser::parser::VectorSelector),
    MatrixSelector(&'a promql_parser::parser::VectorSelector, u128),
    Call(&'static str, &'a Vec<Box<promql_parser::parser::Expr>>),
    Extension,
}

/// The expressions that a list of nodes holds.
pub open spec fn parsed_trees(s: Seq<Box<promql_parser::parser::Expr>>) -> Seq<ExprView> {
    s.map_values(|e: Box<promql_parser::parser::Expr>| parsed_tree(*e))
}

/// `promql_parser::parser::parse`: the tree of a query, or the parser's complaint.
/// Both depend on the query's text alone. What the grammar accepts is not spelled
/// out. It makes a `Duration` of a number of seconds by `Duration::from_secs_f64`,
/// which panics where the number is too large: such queries are left out.
#[verifier::external_body]
fn parse_text(query: &str) -> (r: Result<promql_parser::parser::Expr, String>)
    requires
        !oversized_duration(query@),
    ensures
        match r {
            Ok(e) => promql_parse(query@) == Ok::<ExprView, Seq<char>>(parsed_tree(e)),
            Err(m) => promql_parse(query@) == Err::<ExprView, Seq<char>>(m@),
        },
{
    promql_parser::parser::parse(query)
}

/// The variant of a `promql_parser::parser::Expr` and its public fields: a
/// number's bits, a range in microseconds, a function's name.
#[verifier::external_body]
fn node_of<'a>(e: &'a promql_parser::parser::Expr) -> (r: Node<'a>)
    ensures
        parsed_tree(*e) == match r {
            Node::Aggregate(a) => parsed_aggregate(*a),
            Node::Unary(x) => ExprView::Unary(Box::new(parsed_tree(*x))),
            Node::Binary(b) => parsed_binary(*b),
            Node::Paren(x) => ExprView::Paren(Box::new(parsed_tree(*x))),
            Node::Subquery(x) => ExprView::Subquery(Box::new(parsed_tree(*x))),
            Node::NumberLiteral(bits) => ExprView::NumberLiteral(bits),
            Node::StringLiteral => ExprView::StringLiteral,
            Node::VectorSelector(v) => ExprView::VectorSelector(parsed_selector(*v)),
            Node::MatrixSelector(v, range_us) => ExprView::MatrixSelector {
                vs: parsed_selector(*v),
                range_us,
            },
            Node::Call(func, args) => ExprView::Call { func: func@, args: parsed_trees(args@) },
            Node::Extension => ExprView::Extension,
        },
{
    match e {
        Parsed::Aggregate(a) => Node::Aggregate(a),
        Parsed::Unary(u) => Node::Unary(&u.expr),
        Parsed::Binary(b) => Node::Binary(b),
        Parsed::Paren(p) => Node::Paren(&p.expr),
        Parsed::Subquery(q) => Node::Subquery(&q.expr),
        Parsed::NumberLiteral(n) => Node::NumberLiteral(n.val.to_bits()),
        Parsed::StringLiteral(_) => Node::StringLiteral,
        Parsed::VectorSelector(v) => Node::VectorSelector(v),
        Parsed::MatrixSelector(m) => Node::MatrixSelector(&m.vs, m.range.as_micros()),
        Parsed::Call(c) => Node::Call(c.func.name, &c.args.args),
        Parsed::Extension(_) => Node::Extension,
    }
}

/// The public fields of a `promql_parser::parser::AggregateExpr`. The operator is
/// taken by its text, as its `Display` writes it.
#[verifier::external_body]
fn aggregate_parts<'a>(a: &'a promql_parser::parser::AggregateExpr) -> (r: (
    String,
    &'a promql_parser::parser::Expr,
    Option<&'a promql_parser::parser::Expr>,
    Option<&'a promql_parser::parser::LabelModifier>,
))
    ensures
        parsed_aggregate(*a) == (ExprView::Aggregate {
            op: r.0@,
            expr: Box::new(parsed_tree(*r.1)),
            param: match r.2 {
                Some(p) => Some(Box::new(parsed_tree(*p))),
                None => None,
            },
            modifier: match r.3 {
                Some(m) => Some(parsed_modifier(*m)),
                None => None,
            },
        }),
{
    (a.op.to_string(), &a.expr, a.param.as_deref(), a.modifier.as_ref())
}

/// The public fields of a `promql_parser::parser::BinaryExpr`: the operator by its
/// text, as its `Display` writes it, the operands, and `return_bool` where there
/// is a modifier. Without one no `bool` was written.
#[verifier::external_body]
fn binary_parts<'a>(b: &'a promql_parser::parser::BinaryExpr) -> (r: (
    String,
    &'a promql_parser::parser::Expr,
    &'a promql_parser::parser::Expr,
    Option<bool>,
))
    ensures
        parsed_binary(*b) == (ExprView::Binary {
            op: r.0@,
            lhs: Box::new(parsed_tree(*r.1)),
            rhs: Box::new(parsed_tree(*r.2)),
            return_bool: r.3 == Some(true),
        }),
{
    (b.op.to_string(), &b.lhs, &b.rhs, b.modifier.as_ref().map(|m| m.return_bool))
}

/// The name and the matchers of a `promql_parser::parser::VectorSelector`, each
/// matcher with its operator, label name and value. Offsets, `@` modifiers and
/// alternatives joined by `or` are left behind.
#[verifier::external_body]
fn selector_parts(v: &promql_parser::parser::VectorSelector) -> (r: Selector)
    ensures
        r@ == parsed_selector(*v),
{
    let matchers = v.matchers.matchers.iter().map(|m| LabelMatcher {
        op: match m.op {
            promql_parser::label::MatchOp::Equal => MatchOp::Equal,
            promql_parser::label::MatchOp::NotEqual => MatchOp::NotEqual,
            promql_parser::label::MatchOp::Re(_) => MatchOp::Re,
            promql_parser::label::MatchOp::NotRe(_) => MatchOp::NotRe,
        },
        name: m.name.clone(),
        value: m.value.clone(),
    });
    Selector { name: v.name.clone(), matchers: matchers.collect() }
}

/// The variant of a `promql_parser::parser::LabelModifier` and the label names it
/// lists.
#[verifier::external_body]
fn modifier_parts(m: &promql_parser::parser::LabelModifier) -> (r: Grouping)
    ensures
        r@ == parsed_modifier(*m),
{
    match m {
        promql_parser::parser::LabelModifier::Include(l) => Grouping::Include(l.labels.clone()),
        promql_parser::parser::LabelModifier::Exclude(l) => Grouping::Exclude(l.labels.clone()),
    }
}

fn lower(e: &promql_parser::parser::Expr) -> (r: QueryExpr)
    ensures
        r.view() == parsed_tree(*e),
    decreases parsed_tree(*e),
{
    let ghost t = parsed_tree(*e);
    match node_of(e) {
        Node::Aggregate(a) => {
            let (op, expr, param, modifier) = aggregate_parts(a);
            assert(decreases_to!(t => t->Aggregate_expr));
            let lowered = lower(expr);
            let param = match param {
                Some(p) => {
                    assert(decreases_to!(t => t->param));
                    assert(decreases_to!(t->param => t->param->0));
                    Some(Box::new(lower(p)))
                },
                None => None,
            };
            let modifier = match modifier {
                Some(m) => Some(modifier_parts(m)),
                None => None,
            };
            QueryExpr::Aggregate { op, expr: Box::new(lowered), param, modifier }
        },
        Node::Unary(x) => {
            assert(decreases_to!(t => t->Unary_0));
            QueryExpr::Unary(Box::new(lower(x)))
        },
        Node::Binary(b) => {
            let (op, lhs, rhs, flag) = binary_parts(b);
            assert(decreases_to!(t => t->lhs));
            assert(decreases_to!(t => t->rhs));
            let l = lower(lhs);
            let r = lower(rhs);
            let return_bool: bool = match flag {
                Some(f) => f,
                None => false,
            };
            QueryExpr::Binary { op, lhs: Box::new(l), rhs: Box::new(r), return_bool }
        },
        Node::Paren(x) => {
            assert(decreases_to!(t => t->Paren_0));
            QueryExpr::Paren(Box::new(lower(x)))
        },
        Node::Subquery(x) => {
            assert(decreases_to!(t => t->Subquery_0));
            QueryExpr::Subquery(Box::new(lower(x)))
        },
        Node::NumberLiteral(bits) => QueryExpr::NumberLiteral(bits),
        Node::StringLiteral => QueryExpr::StringLiteral,
        Node::VectorSelector(v) => QueryExpr::VectorSelector(selector_parts(v)),
        Node::MatrixSelector(v, range_us) => QueryExpr::MatrixSelector {
            vs: selector_parts(v),
            range_us,
        },
        Node::Call(func, args) => {
            let ghost views = parsed_trees(args@);
            let mut out: Vec<QueryExpr> = Vec::new();
            let mut i: usize = 0;
            while i < args.len()
                invariant
                    i <= args@.len(),
                    out@.len() == i,
                    views == parsed_trees(args@),
                    t == parsed_tree(*e),
                    t == (ExprView::Call { func: func@, args: views }),
                    forall|j: int| 0 <= j < i ==> #[trigger] out@[j].view() == views[j],
                decreases args@.len() - i,
            {
                assert(views[i as int] == parsed_tree(*args@[i as int]));
                assert(decreases_to!(t => t->args));
                assert(decreases_to!(t->args => t->args[i as int]));
                out.push(lower(&args[i]));
                i += 1;
            }
            proof {
                lemma_expr_views(out@);
                assert(expr_views(out@) =~= views);
            }
            QueryExpr::Call { func: func.to_string(), args: out }
        },
        Node::Extension => QueryExpr::Extension,
    }
}

/// The expression that a query's text holds. What the parser refuses is bad data,
/// with the parser's complaint. So is a number of seconds that is more than a
/// duration holds; what else the parser complains of in such a query, with short
/// durations in place of the long ones, is told first.
pub open spec fn expression(query: Seq<char>) -> Result<ExprView, ErrorView> {
    if oversized_duration(query) {
        match promql_parse(shortened(query)) {
            Ok(_) => Err(bad_data("PromQL parse: duration out of range"@)),
            Err(m) => Err(bad_data("PromQL parse: "@ + m)),
        }
    } else {
        match promql_parse(query) {
            Ok(e) => Ok(e),
            Err(m) => Err(bad_data("PromQL parse: "@ + m)),
        }
    }
}

/// Parse a query.
pub fn parse(query: &str) -> (r: Result<QueryExpr, PromError>)
    ensures
        match expression(query@) {
            Ok(t) => r is Ok && r->Ok_0.view() == t,
            Err(e) => r is Err && r->Err_0@ == e,
        },
{
    if has_oversized_duration(query) {
        let short = shorten_durations(query);
        return match parse_text(short.as_str()) {
            Ok(_) => Err(PromError::bad_data("PromQL parse: duration out of range".to_string())),
            Err(m) => Err(complaint(m.as_str())),
        };
    }
    match parse_text(query) {
        Ok(e) => Ok(lower(&e)),
        Err(m) => Err(complaint(m.as_str())),
    }
}

fn complaint(m: &str) -> (r: PromError)
    ensures
        r@ == bad_data("PromQL parse: "@ + m@),
{
    let mut s = "PromQL parse: ".to_string();
    s.append(m);
    PromError::bad_data(s)
}

} // verus!
