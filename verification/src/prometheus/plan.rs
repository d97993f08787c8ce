//! Picking a plan for an expression.
//!
//! What is not recognised falls through to "unwrap to the first selector", so
//! that a panel still draws something instead of showing an error.

use vstd::arithmetic::power2::{lemma_pow2_unfold, lemma_pow2_pos, pow2};
use vstd::prelude::*;
use crate::double::{is_finite, is_finite_bits, is_negative, place, SIGN};
use crate::prometheus::ast::{Grouping, MatchOp, QueryExpr, Selector};
use crate::text::{ascii_lowered, same_text, to_ascii_lower};

verus! {

/// A binary operator.
#[derive(Debug, Clone, Copy, PartialEq, Eq, Structural)]
pub enum BinOp {
    Add,
    Sub,
    Mul,
    Div,
    Mod,
    Pow,
    Eq,
    Ne,
    Lt,
    Le,
    Gt,
    Ge,
}

/// A function over the samples of a window.
#[derive(Debug, Clone, Copy, PartialEq, Eq, Structural)]
pub enum RangeFnOp {
    /// Per-second rate, counter-reset adjusted, no extrapolation.
    Rate,
    /// Instantaneous rate from the last two points of the window.
    Irate,
    /// Counter-reset adjusted total over the window.
    Increase,
    /// Gauge difference, last minus first, no counter-reset adjustment.
    Delta,
}

/// An aggregation that reduces each group to one value.
#[derive(Debug, Clone, Copy, PartialEq, Eq, Structural)]
pub enum AggOp {
    Sum,
    Avg,
    Min,
    Max,
    Count,
}

/// Whether an operator compares.
pub open spec fn compares(op: BinOp) -> bool {
    op is Eq || op is Ne || op is Lt || op is Le || op is Gt || op is Ge
}

impl BinOp {
    /// Whether the operator compares.
    pub fn is_comparison(self) -> (r: bool)
        ensures
            r == compares(self),
    {
        matches!(
            self,
            BinOp::Eq | BinOp::Ne | BinOp::Lt | BinOp::Le | BinOp::Gt | BinOp::Ge
        )
    }
}

// ---------- operators by their text ----------

/// The binary operator a text denotes. `and`, `or` and `unless` are not
/// supported.
pub open spec fn bin_op_of(op: Seq<char>) -> Option<BinOp> {
    if op == "+"@ {
        Some(BinOp::Add)
    } else if op == "-"@ {
        Some(BinOp::Sub)
    } else if op == "*"@ {
        Some(BinOp::Mul)
    } else if op == "/"@ {
        Some(BinOp::Div)
    } else if op == "%"@ {
        Some(BinOp::Mod)
    } else if op == "^"@ {
        Some(BinOp::Pow)
    } else if op == "=="@ {
        Some(BinOp::Eq)
    } else if op == "!="@ {
        Some(BinOp::Ne)
    } else if op == "<"@ {
        Some(BinOp::Lt)
    } else if op == "<="@ {
        Some(BinOp::Le)
    } else if op == ">"@ {
        Some(BinOp::Gt)
    } else if op == ">="@ {
        Some(BinOp::Ge)
    } else {
        None
    }
}

/// The binary operator a text denotes.
pub fn parse_bin_op(op: &str) -> (r: Option<BinOp>)
    ensures
        r == bin_op_of(op@),
{
    if same_text(op, "+") {
        Some(BinOp::Add)
    } else if same_text(op, "-") {
        Some(BinOp::Sub)
    } else if same_text(op, "*") {
        Some(BinOp::Mul)
    } else if same_text(op, "/") {
        Some(BinOp::Div)
    } else if same_text(op, "%") {
        Some(BinOp::Mod)
    } else if same_text(op, "^") {
        Some(BinOp::Pow)
    } else if same_text(op, "==") {
        Some(BinOp::Eq)
    } else if same_text(op, "!=") {
        Some(BinOp::Ne)
    } else if same_text(op, "<") {
        Some(BinOp::Lt)
    } else if same_text(op, "<=") {
        Some(BinOp::Le)
    } else if same_text(op, ">") {
        Some(BinOp::Gt)
    } else if same_text(op, ">=") {
        Some(BinOp::Ge)
    } else {
        None
    }
}

/// The aggregation a text denotes.
pub open spec fn agg_op_of(op: Seq<char>) -> Option<AggOp> {
    if op == "sum"@ {
        Some(AggOp::Sum)
    } else if op == "avg"@ {
        Some(AggOp::Avg)
    } else if op == "min"@ {
        Some(AggOp::Min)
    } else if op == "max"@ {
        Some(AggOp::Max)
    } else if op == "count"@ {
        Some(AggOp::Count)
    } else {
        None
    }
}

/// The aggregation a text denotes.
pub fn parse_agg_op(op: &str) -> (r: Option<AggOp>)
    ensures
        r == agg_op_of(op@),
{
    if same_text(op, "sum") {
        Some(AggOp::Sum)
    } else if same_text(op, "avg") {
        Some(AggOp::Avg)
    } else if same_text(op, "min") {
        Some(AggOp::Min)
    } else if same_text(op, "max") {
        Some(AggOp::Max)
    } else if same_text(op, "count") {
        Some(AggOp::Count)
    } else {
        None
    }
}

/// The range function a name denotes, in any letter case.
pub open spec fn range_fn_of(name: Seq<char>) -> Option<RangeFnOp> {
    let n = ascii_lowered(name);
    if n == "rate"@ {
        Some(RangeFnOp::Rate)
    } else if n == "irate"@ {
        Some(RangeFnOp::Irate)
    } else if n == "increase"@ {
        Some(RangeFnOp::Increase)
    } else if n == "delta"@ {
        Some(RangeFnOp::Delta)
    } else {
        None
    }
}

/// The range function a name denotes, in any letter case.
pub fn parse_range_fn_op(name: &str) -> (r: Option<RangeFnOp>)
    ensures
        r == range_fn_of(name@),
{
    let n = to_ascii_lower(name);
    if same_text(n.as_str(), "rate") {
        Some(RangeFnOp::Rate)
    } else if same_text(n.as_str(), "irate") {
        Some(RangeFnOp::Irate)
    } else if same_text(n.as_str(), "increase") {
        Some(RangeFnOp::Increase)
    } else if same_text(n.as_str(), "delta") {
        Some(RangeFnOp::Delta)
    } else {
        None
    }
}

// ---------- the count of topk and bottomk ----------

/// The whole part of a positive finite number.
pub open spec fn whole_part(bits: u64) -> nat {
    let exponent = bits as int / 0x10_0000_0000_0000;
    let significand = bits as int % 0x10_0000_0000_0000 + 0x10_0000_0000_0000;
    if exponent < 1023 {
        0
    } else if exponent <= 1075 {
        (significand / (pow2((1075 - exponent) as nat) as int)) as nat
    } else {
        (significand * (pow2((exponent - 1075) as nat) as int)) as nat
    }
}

/// The count a number stands for: its whole part, as far as it fits, and 0 for a
/// number that is not positive or not finite.
pub open spec fn count_of(bits: u64) -> usize {
    if !is_finite_bits(bits) || place(bits) <= 0 {
        0
    } else if whole_part(bits) > usize::MAX {
        usize::MAX
    } else {
        whole_part(bits) as usize
    }
}

fn halved(v: u64, times: u64) -> (r: u64)
    ensures
        r == v as int / (pow2(times as nat) as int),
    decreases times,
{
    if times == 0 {
        proof {
            vstd::arithmetic::power2::lemma2_to64();
        }
        return v;
    }
    let h: u64 = halved(v, times - 1);
    proof {
        let p = pow2((times - 1) as nat);
        lemma_pow2_pos((times - 1) as nat);
        lemma_pow2_unfold(times as nat);
        assert(pow2(times as nat) == 2 * p);
        vstd::arithmetic::div_mod::lemma_div_denominator(v as int, p as int, 2);
        assert(p as int * 2 == pow2(times as nat) as int) by (nonlinear_arith)
            requires
                pow2(times as nat) == 2 * p,
        ;
    }
    h / 2
}

fn doubled(v: u64, times: u64) -> (r: Option<u64>)
    ensures
        match r {
            Some(x) => x == v as int * (pow2(times as nat) as int),
            None => v as int * (pow2(times as nat) as int) > u64::MAX,
        },
    decreases times,
{
    if times == 0 {
        proof {
            vstd::arithmetic::power2::lemma2_to64();
            assert(v as int * 1 == v);
        }
        return Some(v);
    }
    proof {
        let p = pow2((times - 1) as nat);
        lemma_pow2_pos((times - 1) as nat);
        lemma_pow2_unfold(times as nat);
        assert(v as int * (pow2(times as nat) as int) == 2 * (v as int * p)) by (nonlinear_arith)
            requires
                pow2(times as nat) == 2 * p,
        ;
    }
    match doubled(v, times - 1) {
        Some(x) => x.checked_mul(2),
        None => None,
    }
}

/// The whole part of a finite number that is not negative, as far as it fits.
pub(crate) fn whole_of(bits: u64) -> (r: Option<u64>)
    requires
        is_finite_bits(bits),
        bits < SIGN,
    ensures
        match r {
            Some(w) => w == whole_part(bits),
            None => whole_part(bits) > u64::MAX,
        },
{
    let exponent: u64 = bits / 0x10_0000_0000_0000;
    let significand: u64 = bits % 0x10_0000_0000_0000 + 0x10_0000_0000_0000;
    if exponent < 1023 {
        Some(0)
    } else if exponent <= 1075 {
        Some(halved(significand, 1075 - exponent))
    } else {
        doubled(significand, exponent - 1075)
    }
}

/// The count a number stands for.
pub fn count_of_bits(bits: u64) -> (r: usize)
    ensures
        r == count_of(bits),
{
    if !is_finite(bits) || is_negative(bits) || bits == 0 {
        return 0;
    }
    match whole_of(bits) {
        Some(whole) => if whole > usize::MAX as u64 {
            usize::MAX
        } else {
            whole as usize
        },
        None => usize::MAX,
    }
}

// ---------- plans ----------

/// What to do with an expression.
pub enum QueryKind<'a> {
    /// Return raw points for the selector.
    Selector(&'a Selector),
    /// Apply a window function to the selector's samples.
    RangeFn { sel: &'a Selector, range_us: i64, op: RangeFnOp },
    /// Aggregate the inner expression's results by group.
    Aggregate { op: AggOp, modifier: Option<&'a Grouping>, inner: &'a QueryExpr },
    /// `histogram_quantile(q, vector)`
    HistogramQuantile { quantile: u64, inner: &'a QueryExpr },
    /// `topk(n, vector)` or `bottomk(n, vector)`: a filter, the surviving series
    /// keep their name and labels.
    TopK { n: usize, top: bool, modifier: Option<&'a Grouping>, inner: &'a QueryExpr },
    /// An operator between two operands, each a scalar or a vector.
    Binary { op: BinOp, lhs: &'a QueryExpr, rhs: &'a QueryExpr, return_bool: bool },
}

/// The first selector found in an expression, walking arguments and operands
/// from left to right.
pub open spec fn first_selector<'a>(e: &'a QueryExpr) -> Option<&'a Selector>
    decreases e,
{
    match *e {
        QueryExpr::VectorSelector(v) => Some(&v),
        QueryExpr::MatrixSelector { vs, .. } => Some(&vs),
        QueryExpr::Call { args, .. } => first_selector_in(args@),
        QueryExpr::Aggregate { expr, .. } => first_selector(&expr),
        QueryExpr::Binary { lhs, rhs, .. } => match first_selector(&lhs) {
            Some(s) => Some(s),
            None => first_selector(&rhs),
        },
        QueryExpr::Paren(x) => first_selector(&x),
        QueryExpr::Unary(x) => first_selector(&x),
        QueryExpr::Subquery(x) => first_selector(&x),
        _ => None,
    }
}

/// The first selector found in a list of expressions.
pub open spec fn first_selector_in<'a>(s: Seq<QueryExpr>) -> Option<&'a Selector>
    decreases s,
{
    if s.len() == 0 {
        None
    } else {
        match first_selector(&s[0]) {
            Some(x) => Some(x),
            None => first_selector_in(s.skip(1)),
        }
    }
}

/// The first selector found in an expression.
pub fn extract_selector<'a>(e: &'a QueryExpr) -> (r: Option<&'a Selector>)
    ensures
        r == first_selector(e),
    decreases e,
{
    match e {
        QueryExpr::VectorSelector(v) => Some(v),
        QueryExpr::MatrixSelector { vs, .. } => Some(vs),
        QueryExpr::Call { args, .. } => {
            let mut i: usize = 0;
            assert(args@.skip(0) =~= args@);
            while i < args.len()
                invariant
                    i <= args@.len(),
                    *e matches QueryExpr::Call { args: a, .. } && a == *args,
                    first_selector(e) == first_selector_in(args@.skip(i as int)),
                decreases args@.len() - i,
            {
                assert(args@.skip(i as int)[0] == args@[i as int]);
                assert(args@.skip(i as int).skip(1) =~= args@.skip(i as int + 1));
                assert(decreases_to!(*e => e->args));
                assert(decreases_to!(e->args => e->args@));
                assert(decreases_to!(e->args@ => e->args@[i as int]));
                let found = extract_selector(&args[i]);
                if found.is_some() {
                    return found;
                }
                i += 1;
            }
            None
        },
        QueryExpr::Aggregate { expr, .. } => extract_selector(expr),
        QueryExpr::Binary { lhs, rhs, .. } => {
            let found = extract_selector(lhs);
            if found.is_some() {
                found
            } else {
                extract_selector(rhs)
            }
        },
        QueryExpr::Paren(x) => extract_selector(x),
        QueryExpr::Unary(x) => extract_selector(x),
        QueryExpr::Subquery(x) => extract_selector(x),
        _ => None,
    }
}

/// The reference to an optional modifier.
pub open spec fn by_ref<'a>(m: Option<Grouping>) -> Option<&'a Grouping> {
    match m {
        Some(g) => Some(&g),
        None => None,
    }
}

/// The plan of an expression that is recognised as more than a selector.
pub open spec fn recognised<'a>(e: &'a QueryExpr) -> Option<QueryKind<'a>> {
    match *e {
        QueryExpr::Aggregate { op, expr, param, modifier } => {
            let ranked = op@ == "topk"@ || op@ == "bottomk"@;
            match param {
                Some(p) => match *p {
                    QueryExpr::NumberLiteral(bits) => if ranked {
                        Some(
                            QueryKind::TopK {
                                n: count_of(bits),
                                top: op@ == "topk"@,
                                modifier: by_ref(modifier),
                                inner: &expr,
                            },
                        )
                    } else {
                        reduction(op@, modifier, &expr)
                    },
                    _ => reduction(op@, modifier, &expr),
                },
                None => reduction(op@, modifier, &expr),
            }
        },
        QueryExpr::Binary { op, lhs, rhs, return_bool } => match bin_op_of(op@) {
            Some(b) => Some(QueryKind::Binary { op: b, lhs: &lhs, rhs: &rhs, return_bool }),
            None => None,
        },
        QueryExpr::Call { func, args } => {
            if ascii_lowered(func@) == "histogram_quantile"@ && args@.len() == 2
                && args@[0] is NumberLiteral {
                Some(
                    QueryKind::HistogramQuantile {
                        quantile: args@[0]->NumberLiteral_0,
                        inner: &args@[1],
                    },
                )
            } else if args@.len() > 0 && range_fn_of(func@) is Some {
                match args@[0] {
                    QueryExpr::MatrixSelector { vs, range_us } => Some(
                        QueryKind::RangeFn {
                            sel: &vs,
                            range_us: range_us as i64,
                            op: range_fn_of(func@)->0,
                        },
                    ),
                    _ => None,
                }
            } else {
                None
            }
        },
        _ => None,
    }
}

/// The plan of an aggregation that reduces.
pub open spec fn reduction<'a>(
    op: Seq<char>,
    modifier: Option<Grouping>,
    inner: &'a QueryExpr,
) -> Option<QueryKind<'a>> {
    match agg_op_of(op) {
        Some(a) => Some(QueryKind::Aggregate { op: a, modifier: by_ref(modifier), inner }),
        None => None,
    }
}

/// The plan of an expression: what it is recognised as, else its first selector,
/// else none.
pub open spec fn query_kind<'a>(e: &'a QueryExpr) -> Option<QueryKind<'a>> {
    match recognised(e) {
        Some(k) => Some(k),
        None => match first_selector(e) {
            Some(s) => Some(QueryKind::Selector(s)),
            None => None,
        },
    }
}

/// Pick the plan for an expression.
pub fn detect_query_kind<'a>(e: &'a QueryExpr) -> (r: Option<QueryKind<'a>>)
    ensures
        r == query_kind(e),
{
    match e {
        QueryExpr::Aggregate { op, expr, param, modifier } => {
            let top: bool = same_text(op.as_str(), "topk");
            if top || same_text(op.as_str(), "bottomk") {
                if let Some(p) = param {
                    if let QueryExpr::NumberLiteral(bits) = &**p {
                        return Some(
                            QueryKind::TopK {
                                n: count_of_bits(*bits),
                                top,
                                modifier: modifier.as_ref(),
                                inner: expr,
                            },
                        );
                    }
                }
            }
            if let Some(a) = parse_agg_op(op.as_str()) {
                return Some(
                    QueryKind::Aggregate { op: a, modifier: modifier.as_ref(), inner: expr },
                );
            }
        },
        QueryExpr::Binary { op, lhs, rhs, return_bool } => {
            if let Some(b) = parse_bin_op(op.as_str()) {
                return Some(QueryKind::Binary { op: b, lhs, rhs, return_bool: *return_bool });
            }
        },
        QueryExpr::Call { func, args } => {
            let name = to_ascii_lower(func.as_str());
            if same_text(name.as_str(), "histogram_quantile") && args.len() == 2 {
                if let QueryExpr::NumberLiteral(q) = &args[0] {
                    return Some(QueryKind::HistogramQuantile { quantile: *q, inner: &args[1] });
                }
            }
            if let Some(f) = parse_range_fn_op(func.as_str()) {
                if args.len() > 0 {
                    if let QueryExpr::MatrixSelector { vs, range_us } = &args[0] {
                        return Some(
                            QueryKind::RangeFn {
                                sel: vs,
                                range_us: #[verifier::truncate]
                                (*range_us as i64),
                                op: f,
                            },
                        );
                    }
                }
            }
        },
        _ => {},
    }
    match extract_selector(e) {
        Some(s) => Some(QueryKind::Selector(s)),
        None => None,
    }
}

/// The selector of an expression that is nothing but a selector, within any
/// number of parentheses.
pub open spec fn bare_selector<'a>(e: &'a QueryExpr) -> Option<&'a Selector>
    decreases e,
{
    match *e {
        QueryExpr::VectorSelector(v) => Some(&v),
        QueryExpr::Paren(x) => bare_selector(&x),
        _ => None,
    }
}

/// The selector of an expression that is nothing but a selector, within any
/// number of parentheses. Used to decide whether an aggregation can be pushed
/// straight down into SQL.
pub fn pure_selector<'a>(e: &'a QueryExpr) -> (r: Option<&'a Selector>)
    ensures
        r == bare_selector(e),
    decreases e,
{
    match e {
        QueryExpr::VectorSelector(v) => Some(v),
        QueryExpr::Paren(x) => pure_selector(x),
        _ => None,
    }
}

/// Whether grouping retains a list of labels that is known at planning time.
pub open spec fn pushes_down(modifier: Option<&Grouping>) -> bool {
    match modifier {
        None => true,
        Some(g) => g is Include,
    }
}

/// `by (...)` and no modifier can be pushed to SQL: both retain a fixed list of
/// labels, which may be empty. `without (...)` retains labels that are only
/// known once the data is read.
pub fn aggregate_can_push_down(modifier: Option<&Grouping>) -> (r: bool)
    ensures
        r == pushes_down(modifier),
{
    match modifier {
        None => true,
        Some(Grouping::Include(_)) => true,
        Some(Grouping::Exclude(_)) => false,
    }
}

/// `(scalar, selector, scalar_on_left)` where exactly one operand is a finite
/// number and the other a bare selector.
pub open spec fn scalar_and_selector<'a>(lhs: &'a QueryExpr, rhs: &'a QueryExpr) -> Option<
    (u64, &'a Selector, bool),
> {
    if finite_literal(lhs) && bare_selector(rhs) is Some {
        Some((lhs->NumberLiteral_0, bare_selector(rhs)->0, true))
    } else if finite_literal(rhs) && bare_selector(lhs) is Some {
        Some((rhs->NumberLiteral_0, bare_selector(lhs)->0, false))
    } else {
        None
    }
}

/// Whether an expression is a finite number.
pub open spec fn finite_literal(e: &QueryExpr) -> bool {
    *e matches QueryExpr::NumberLiteral(bits) && is_finite_bits(bits)
}

fn pick_scalar(e: &QueryExpr) -> (r: Option<u64>)
    ensures
        r == if finite_literal(e) {
            Some(e->NumberLiteral_0)
        } else {
            None
        },
{
    if let QueryExpr::NumberLiteral(bits) = e {
        if is_finite(*bits) {
            return Some(*bits);
        }
    }
    None
}

/// `(scalar, selector, scalar_on_left)` where exactly one operand is a finite
/// number and the other a bare selector. Infinities and NaN are left to the
/// evaluation of points, because SQL literals handle them awkwardly.
pub fn scalar_vector_pair<'a>(lhs: &'a QueryExpr, rhs: &'a QueryExpr) -> (r: Option<
    (u64, &'a Selector, bool),
>)
    ensures
        r == scalar_and_selector(lhs, rhs),
{
    if let Some(s) = pick_scalar(lhs) {
        if let Some(sel) = pure_selector(rhs) {
            return Some((s, sel, true));
        }
    }
    if let Some(s) = pick_scalar(rhs) {
        if let Some(sel) = pure_selector(lhs) {
            return Some((s, sel, false));
        }
    }
    None
}

/// One operand of a binary expression.
pub enum Operand<'a> {
    /// A number, applied to every series of the other side.
    Scalar(u64),
    /// An expression that is still to be evaluated.
    Vector(&'a QueryExpr),
}

/// The operand an expression is.
pub open spec fn operand<'a>(e: &'a QueryExpr) -> Operand<'a> {
    match *e {
        QueryExpr::NumberLiteral(bits) => Operand::Scalar(bits),
        _ => Operand::Vector(e),
    }
}

/// The operand an expression is.
pub fn operand_of<'a>(e: &'a QueryExpr) -> (r: Operand<'a>)
    ensures
        r == operand(e),
{
    match e {
        QueryExpr::NumberLiteral(bits) => Operand::Scalar(*bits),
        _ => Operand::Vector(e),
    }
}

/// One step of evaluating an expression: either a query to run, or inner
/// expressions to evaluate first and what to do with their points. The same
/// steps serve instant and range queries.
pub enum Step<'a> {
    /// Fetch the selector's samples.
    Selector(&'a Selector),
    /// Fetch the samples of the window and apply the function.
    RangeFn { sel: &'a Selector, range_us: i64, op: RangeFnOp },
    /// Aggregate in SQL.
    AggregateSql { sel: &'a Selector, op: AggOp, modifier: Option<&'a Grouping> },
    /// Evaluate the inner expression and aggregate its points.
    AggregatePoints { inner: &'a QueryExpr, op: AggOp, modifier: Option<&'a Grouping> },
    /// Evaluate the inner expression and take a quantile of its buckets.
    Quantile { inner: &'a QueryExpr, quantile: u64 },
    /// Rank in SQL.
    TopKSql { sel: &'a Selector, n: usize, top: bool, modifier: Option<&'a Grouping> },
    /// Evaluate the inner expression and rank its points.
    TopKPoints { inner: &'a QueryExpr, n: usize, top: bool, modifier: Option<&'a Grouping> },
    /// Apply the operator row by row in SQL.
    ScalarSql { scalar: u64, sel: &'a Selector, op: BinOp, return_bool: bool, scalar_on_left: bool },
    /// Evaluate the operands and apply the operator to their points.
    Operate { lhs: Operand<'a>, rhs: Operand<'a>, op: BinOp, return_bool: bool },
    /// There is nothing to draw.
    Nothing,
}

/// Whether a selector has regex matchers. SQL does not decide those; they are
/// applied to the rows that come back.
pub open spec fn needs_row_filter(sel: &Selector) -> bool {
    exists|i: int|
        0 <= i < sel.matchers@.len() && ((#[trigger] sel.matchers@[i]).op is Re
            || sel.matchers@[i].op is NotRe)
}

/// Whether a selector has regex matchers.
pub fn has_row_filter(sel: &Selector) -> (r: bool)
    ensures
        r == needs_row_filter(sel),
{
    let mut i: usize = 0;
    while i < sel.matchers.len()
        invariant
            i <= sel.matchers@.len(),
            forall|j: int|
                0 <= j < i ==> !((#[trigger] sel.matchers@[j]).op is Re
                    || sel.matchers@[j].op is NotRe),
        decreases sel.matchers@.len() - i,
    {
        let m = &sel.matchers[i];
        if m.op == MatchOp::Re || m.op == MatchOp::NotRe {
            return true;
        }
        i += 1;
    }
    false
}

/// Whether a selector has regex matchers on the metric's name.
pub open spec fn needs_names(sel: &Selector) -> bool {
    exists|i: int|
        0 <= i < sel.matchers@.len() && ((#[trigger] sel.matchers@[i]).op is Re
            || sel.matchers@[i].op is NotRe) && sel.matchers@[i].name@ == "__name__"@
}

/// Whether a selector has regex matchers on the metric's name.
pub fn has_name_filter(sel: &Selector) -> (r: bool)
    ensures
        r == needs_names(sel),
{
    let mut i: usize = 0;
    while i < sel.matchers.len()
        invariant
            i <= sel.matchers@.len(),
            forall|j: int|
                0 <= j < i ==> !(((#[trigger] sel.matchers@[j]).op is Re
                    || sel.matchers@[j].op is NotRe) && sel.matchers@[j].name@ == "__name__"@),
        decreases sel.matchers@.len() - i,
    {
        let m = &sel.matchers[i];
        if (m.op == MatchOp::Re || m.op == MatchOp::NotRe) && same_text(
            m.name.as_str(),
            "__name__",
        ) {
            return true;
        }
        i += 1;
    }
    false
}

/// The step that evaluates an expression.
pub open spec fn step_of<'a>(e: &'a QueryExpr) -> Step<'a> {
    match query_kind(e) {
        Some(QueryKind::Selector(sel)) => Step::Selector(sel),
        Some(QueryKind::RangeFn { sel, range_us, op }) => Step::RangeFn { sel, range_us, op },
        Some(QueryKind::Aggregate { op, modifier, inner }) => {
            if pushes_down(modifier) && bare_selector(inner) is Some && !needs_row_filter(
                bare_selector(inner)->0,
            ) {
                Step::AggregateSql { sel: bare_selector(inner)->0, op, modifier }
            } else {
                Step::AggregatePoints { inner, op, modifier }
            }
        },
        Some(QueryKind::HistogramQuantile { quantile, inner }) => Step::Quantile { inner, quantile },
        Some(QueryKind::TopK { n, top, modifier, inner }) => {
            if pushes_down(modifier) && bare_selector(inner) is Some && !needs_row_filter(
                bare_selector(inner)->0,
            ) {
                Step::TopKSql { sel: bare_selector(inner)->0, n, top, modifier }
            } else {
                Step::TopKPoints { inner, n, top, modifier }
            }
        },
        Some(QueryKind::Binary { op, lhs, rhs, return_bool }) => match scalar_and_selector(
            lhs,
            rhs,
        ) {
            Some((scalar, sel, scalar_on_left)) if !needs_names(sel) => Step::ScalarSql {
                scalar,
                sel,
                op,
                return_bool,
                scalar_on_left,
            },
            _ => Step::Operate { lhs: operand(lhs), rhs: operand(rhs), op, return_bool },
        },
        None => Step::Nothing,
    }
}

/// The step that evaluates an expression. Work goes to SQL where the grouping is
/// known at planning time and the inner expression is a bare selector; anything
/// richer is evaluated on points. SQL aggregates and ranks only where it decides
/// every matcher: of what it has reduced, the rows that come back no longer show
/// the series. It computes row by row, so that rows can still be filtered by
/// their labels, but not by their names, which it drops.
pub fn next_step<'a>(e: &'a QueryExpr) -> (r: Step<'a>)
    ensures
        r == step_of(e),
{
    match detect_query_kind(e) {
        Some(QueryKind::Selector(sel)) => Step::Selector(sel),
        Some(QueryKind::RangeFn { sel, range_us, op }) => Step::RangeFn { sel, range_us, op },
        Some(QueryKind::Aggregate { op, modifier, inner }) => {
            if aggregate_can_push_down(modifier) {
                if let Some(sel) = pure_selector(inner) {
                    if !has_row_filter(sel) {
                        return Step::AggregateSql { sel, op, modifier };
                    }
                }
            }
            Step::AggregatePoints { inner, op, modifier }
        },
        Some(QueryKind::HistogramQuantile { quantile, inner }) => Step::Quantile { inner, quantile },
        Some(QueryKind::TopK { n, top, modifier, inner }) => {
            if aggregate_can_push_down(modifier) {
                if let Some(sel) = pure_selector(inner) {
                    if !has_row_filter(sel) {
                        return Step::TopKSql { sel, n, top, modifier };
                    }
                }
            }
            Step::TopKPoints { inner, n, top, modifier }
        },
        Some(QueryKind::Binary { op, lhs, rhs, return_bool }) => {
            if let Some((scalar, sel, scalar_on_left)) = scalar_vector_pair(lhs, rhs) {
                if !has_name_filter(sel) {
                    return Step::ScalarSql { scalar, sel, op, return_bool, scalar_on_left };
                }
            }
            Step::Operate { lhs: operand_of(lhs), rhs: operand_of(rhs), op, return_bool }
        },
        None => Step::Nothing,
    }
}

/// Whatever an expression holds, evaluating it draws something as long as there
/// is a selector in it.
pub proof fn law_a_selector_is_always_drawn(e: &QueryExpr)
    requires
        first_selector(e) is Some,
    ensures
        !(step_of(e) is Nothing),
{
}

/// SQL aggregates and ranks only over series that it has selected by all of their
/// selector's matchers, and computes only where none is left that asks for names.
pub proof fn law_sql_reduces_what_it_selects(e: &QueryExpr)
    ensures
        match step_of(e) {
            Step::AggregateSql { sel, .. } => !needs_row_filter(sel),
            Step::TopKSql { sel, .. } => !needs_row_filter(sel),
            Step::ScalarSql { sel, .. } => !needs_names(sel),
            _ => true,
        },
{
}

/// The inner expressions a step leaves to be evaluated are proper parts of the
/// expression, so that evaluating step by step comes to an end.
pub proof fn law_steps_go_inward(e: &QueryExpr)
    ensures
        match step_of(e) {
            Step::AggregatePoints { inner, .. } => decreases_to!(e => inner),
            Step::Quantile { inner, .. } => decreases_to!(e => inner),
            Step::TopKPoints { inner, .. } => decreases_to!(e => inner),
            Step::Operate { lhs, rhs, .. } => {
                &&& (lhs matches Operand::Vector(x) ==> decreases_to!(e => x))
                &&& (rhs matches Operand::Vector(x) ==> decreases_to!(e => x))
            },
            _ => true,
        },
{
    match *e {
        QueryExpr::Call { func, args } => {
            assert(decreases_to!(*e => e->args));
            assert(decreases_to!(e->args => e->args@));
            if args@.len() == 2 {
                assert(decreases_to!(e->args@ => e->args@[1]));
            }
        },
        QueryExpr::Aggregate { .. } => {
            assert(decreases_to!(*e => e->Aggregate_expr));
        },
        QueryExpr::Binary { .. } => {
            assert(decreases_to!(*e => e->lhs));
            assert(decreases_to!(*e => e->rhs));
        },
        _ => {},
    }
}

} // verus!
