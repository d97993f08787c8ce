//! Which step an expression takes, by the name of its operator.

use vstd::prelude::*;
use crate::double::is_finite_bits;
use crate::prometheus::ast::{QueryExpr, Selector};
use crate::prometheus::plan::{
    agg_op_of, bare_selector, bin_op_of, by_ref, count_of, first_selector, needs_names,
    needs_row_filter, step_of, AggOp, BinOp, Operand, RangeFnOp, Step,
};
use crate::text::ascii_lowered;

verus! {

/// The range function of a name.
pub open spec fn named_function(name: Seq<char>) -> Option<RangeFnOp> {
    if name == seq!['r', 'a', 't', 'e'] {
        Some(RangeFnOp::Rate)
    } else if name == seq!['i', 'r', 'a', 't', 'e'] {
        Some(RangeFnOp::Irate)
    } else if name == seq!['i', 'n', 'c', 'r', 'e', 'a', 's', 'e'] {
        Some(RangeFnOp::Increase)
    } else if name == seq!['d', 'e', 'l', 't', 'a'] {
        Some(RangeFnOp::Delta)
    } else {
        None
    }
}

/// The aggregation of a name.
pub open spec fn named_aggregation(name: Seq<char>) -> Option<AggOp> {
    if name == seq!['s', 'u', 'm'] {
        Some(AggOp::Sum)
    } else if name == seq!['a', 'v', 'g'] {
        Some(AggOp::Avg)
    } else if name == seq!['m', 'i', 'n'] {
        Some(AggOp::Min)
    } else if name == seq!['m', 'a', 'x'] {
        Some(AggOp::Max)
    } else if name == seq!['c', 'o', 'u', 'n', 't'] {
        Some(AggOp::Count)
    } else {
        None
    }
}

/// The operator of a sign.
pub open spec fn signed_operator(sign: Seq<char>) -> Option<BinOp> {
    if sign == seq!['+'] {
        Some(BinOp::Add)
    } else if sign == seq!['-'] {
        Some(BinOp::Sub)
    } else if sign == seq!['*'] {
        Some(BinOp::Mul)
    } else if sign == seq!['/'] {
        Some(BinOp::Div)
    } else if sign == seq!['%'] {
        Some(BinOp::Mod)
    } else if sign == seq!['^'] {
        Some(BinOp::Pow)
    } else if sign == seq!['=', '='] {
        Some(BinOp::Eq)
    } else if sign == seq!['!', '='] {
        Some(BinOp::Ne)
    } else if sign == seq!['<'] {
        Some(BinOp::Lt)
    } else if sign == seq!['<', '='] {
        Some(BinOp::Le)
    } else if sign == seq!['>'] {
        Some(BinOp::Gt)
    } else if sign == seq!['>', '='] {
        Some(BinOp::Ge)
    } else {
        None
    }
}

/// Every sign denotes its operator, and no other text denotes one.
pub proof fn law_operators_by_their_signs(sign: Seq<char>)
    ensures
        bin_op_of(sign) == signed_operator(sign),
{
    reveal_strlit("+");
    reveal_strlit("-");
    reveal_strlit("*");
    reveal_strlit("/");
    reveal_strlit("%");
    reveal_strlit("^");
    reveal_strlit("==");
    reveal_strlit("!=");
    reveal_strlit("<");
    reveal_strlit("<=");
    reveal_strlit(">");
    reveal_strlit(">=");
    assert("+"@ =~= seq!['+']);
    assert("-"@ =~= seq!['-']);
    assert("*"@ =~= seq!['*']);
    assert("/"@ =~= seq!['/']);
    assert("%"@ =~= seq!['%']);
    assert("^"@ =~= seq!['^']);
    assert("=="@ =~= seq!['=', '=']);
    assert("!="@ =~= seq!['!', '=']);
    assert("<"@ =~= seq!['<']);
    assert("<="@ =~= seq!['<', '=']);
    assert(">"@ =~= seq!['>']);
    assert(">="@ =~= seq!['>', '=']);
}

/// Every aggregation that reduces is denoted by its name, and no other text denotes
/// one.
pub proof fn law_aggregations_by_their_names(name: Seq<char>)
    ensures
        agg_op_of(name) == named_aggregation(name),
{
    reveal_strlit("sum");
    reveal_strlit("avg");
    reveal_strlit("min");
    reveal_strlit("max");
    reveal_strlit("count");
    assert("sum"@ =~= seq!['s', 'u', 'm']);
    assert("avg"@ =~= seq!['a', 'v', 'g']);
    assert("min"@ =~= seq!['m', 'i', 'n']);
    assert("max"@ =~= seq!['m', 'a', 'x']);
    assert("count"@ =~= seq!['c', 'o', 'u', 'n', 't']);
}

/// A range function of a range of a selector is computed over that selector's
/// samples and that range.
pub proof fn law_range_functions_by_their_names(e: &QueryExpr)
    requires
        *e is Call,
        named_function(ascii_lowered(e->func@)) is Some,
        e->args@.len() > 0,
        e->args@[0] is MatrixSelector,
    ensures
        step_of(e) == (Step::RangeFn {
            sel: &e->args@[0]->vs,
            range_us: e->args@[0]->range_us as i64,
            op: named_function(ascii_lowered(e->func@))->0,
        }),
{
    reveal_strlit("rate");
    reveal_strlit("irate");
    reveal_strlit("increase");
    reveal_strlit("delta");
    reveal_strlit("histogram_quantile");
    assert("rate"@ =~= seq!['r', 'a', 't', 'e']);
    assert("irate"@ =~= seq!['i', 'r', 'a', 't', 'e']);
    assert("increase"@ =~= seq!['i', 'n', 'c', 'r', 'e', 'a', 's', 'e']);
    assert("delta"@ =~= seq!['d', 'e', 'l', 't', 'a']);
    assert("histogram_quantile"@.len() == 18);
}

/// Whether a name is `topk`.
pub open spec fn is_topk(name: Seq<char>) -> bool {
    name == seq!['t', 'o', 'p', 'k']
}

/// Whether a name is `bottomk`.
pub open spec fn is_bottomk(name: Seq<char>) -> bool {
    name == seq!['b', 'o', 't', 't', 'o', 'm', 'k']
}

/// Whether an expression is `topk` or `bottomk` of a number.
pub open spec fn is_ranking(e: &QueryExpr) -> bool {
    *e matches QueryExpr::Aggregate { op, param, .. } && (is_topk(op@) || is_bottomk(op@))
        && param is Some && *(param->0) is NumberLiteral
}

/// `topk` ranks the greatest first and `bottomk` the least; both keep as many as
/// their number says, of each group. SQL ranks where the grouping is a list of
/// labels and the ranked expression is a selector that SQL decides.
pub proof fn law_rankings_by_their_names(e: &QueryExpr)
    requires
        is_ranking(e),
    ensures
        ({
            let top = is_topk(e->Aggregate_op@);
            let n = count_of(e->param->0->NumberLiteral_0);
            let modifier = by_ref(e->modifier);
            let inner: &QueryExpr = &e->Aggregate_expr;
            let listed = modifier is None || modifier->0 is Include;
            if listed && bare_selector(inner) is Some && !needs_row_filter(
                bare_selector(inner)->0,
            ) {
                step_of(e) == (Step::TopKSql { sel: bare_selector(inner)->0, n, top, modifier })
            } else {
                step_of(e) == (Step::TopKPoints { inner, n, top, modifier })
            }
        }),
{
    reveal_strlit("topk");
    reveal_strlit("bottomk");
    assert("topk"@ =~= seq!['t', 'o', 'p', 'k']);
    assert("bottomk"@ =~= seq!['b', 'o', 't', 't', 'o', 'm', 'k']);
}

/// An aggregation that reduces does so by its name, with its grouping, over its
/// inner expression.
pub proof fn law_reductions_by_their_names(e: &QueryExpr)
    requires
        *e is Aggregate,
        named_aggregation(e->Aggregate_op@) is Some,
    ensures
        ({
            let op = named_aggregation(e->Aggregate_op@)->0;
            let modifier = by_ref(e->modifier);
            let inner: &QueryExpr = &e->Aggregate_expr;
            let listed = modifier is None || modifier->0 is Include;
            if listed && bare_selector(inner) is Some && !needs_row_filter(
                bare_selector(inner)->0,
            ) {
                step_of(e) == (Step::AggregateSql { sel: bare_selector(inner)->0, op, modifier })
            } else {
                step_of(e) == (Step::AggregatePoints { inner, op, modifier })
            }
        }),
{
    reveal_strlit("topk");
    reveal_strlit("bottomk");
    assert("topk"@[0] == 't');
    assert("bottomk"@[0] == 'b');
    law_aggregations_by_their_names(e->Aggregate_op@);
}

/// `histogram_quantile` of a number and an expression takes that quantile of the
/// expression's buckets.
pub proof fn law_quantiles_by_their_name(e: &QueryExpr)
    requires
        *e is Call,
        ascii_lowered(e->func@) == "histogram_quantile"@,
        e->args@.len() == 2,
        e->args@[0] is NumberLiteral,
    ensures
        step_of(e) == (Step::Quantile {
            inner: &e->args@[1],
            quantile: e->args@[0]->NumberLiteral_0,
        }),
{
}

/// An operator keeps its operands on their sides, and a number among them is a
/// scalar. SQL computes where one operand is a finite number and the other a
/// selector whose name needs no filter.
pub proof fn law_operations_by_their_signs(e: &QueryExpr)
    requires
        *e is Binary,
        signed_operator(e->Binary_op@) is Some,
    ensures
        ({
            let op = signed_operator(e->Binary_op@)->0;
            let lhs: &QueryExpr = &e->lhs;
            let rhs: &QueryExpr = &e->rhs;
            let return_bool = e->return_bool;
            let side = |x: &QueryExpr| match *x {
                QueryExpr::NumberLiteral(n) => Operand::Scalar(n),
                _ => Operand::Vector(x),
            };
            if *lhs is NumberLiteral && is_finite_bits(lhs->NumberLiteral_0) && bare_selector(
                rhs,
            ) is Some && !needs_names(bare_selector(rhs)->0) {
                step_of(e) == (Step::ScalarSql {
                    scalar: lhs->NumberLiteral_0,
                    sel: bare_selector(rhs)->0,
                    op,
                    return_bool,
                    scalar_on_left: true,
                })
            } else if *rhs is NumberLiteral && is_finite_bits(rhs->NumberLiteral_0) && bare_selector(
                lhs,
            ) is Some && !needs_names(bare_selector(lhs)->0) {
                step_of(e) == (Step::ScalarSql {
                    scalar: rhs->NumberLiteral_0,
                    sel: bare_selector(lhs)->0,
                    op,
                    return_bool,
                    scalar_on_left: false,
                })
            } else {
                step_of(e) == (Step::Operate { lhs: side(lhs), rhs: side(rhs), op, return_bool })
            }
        }),
{
    law_operators_by_their_signs(e->Binary_op@);
}

/// A selector is fetched as it is, within any number of parentheses.
pub proof fn law_selectors_are_fetched(e: &QueryExpr)
    requires
        bare_selector(e) is Some,
    ensures
        step_of(e) == Step::Selector(bare_selector(e)->0),
{
    lemma_bare_is_first(e);
}

proof fn lemma_bare_is_first(e: &QueryExpr)
    requires
        bare_selector(e) is Some,
    ensures
        first_selector(e) == bare_selector(e),
        *e is VectorSelector || *e is Paren,
    decreases e,
{
    if let QueryExpr::Paren(x) = *e {
        lemma_bare_is_first(&x);
    }
}

/// The selector of a selector, and of one in parentheses, is that selector; no
/// other expression is a bare selector.
pub proof fn law_bare_selectors(e: &QueryExpr)
    ensures
        bare_selector(e) == match *e {
            QueryExpr::VectorSelector(s) => Some(&s),
            QueryExpr::Paren(x) => bare_selector(&x),
            _ => None::<&Selector>,
        },
{
}

} // verus!
