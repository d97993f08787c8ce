//! What an expression fetches: the statements to run, in order, and the columns
//! that each returns.

use vstd::prelude::*;
use vstd::string::StringExecFns;
use crate::prometheus::ast::QueryExpr;
use crate::prometheus::plan::{
    law_steps_go_inward, next_step, step_of, Operand, Step,
};
use crate::prometheus::queries::{
    instant_aggregate_sql, instant_aggregate_text, instant_range_fn_sql, instant_selector_sql,
    instant_topk_sql, instant_topk_text, range_aggregate_sql, range_aggregate_text, range_fn_text,
    range_topk_sql, range_topk_text, scalar_instant_sql, scalar_instant_text, scalar_range_sql,
    scalar_range_text, selector_sql, selector_text,
};
use crate::prometheus::sql::{aggregate_group_keys, group_keys, where_conditions, LOOKBACK_US};

verus! {

// ---------- literals ----------

/// Writes a number out in full, with a decimal point, supplied by the caller.
pub struct NumberWriter<L> {
    pub write: L,
}

impl<L: Fn(u64) -> String> NumberWriter<L> {
    /// The function takes every number, and gives one text for each.
    pub open spec fn wf(self) -> bool {
        &&& forall|n: u64| #[trigger] call_requires(self.write, (n,))
        &&& forall|n: u64, a: String, b: String| #[trigger]
            call_ensures(self.write, (n,), a) && #[trigger] call_ensures(self.write, (n,), b)
                ==> a@ == b@
    }

    /// Whether the function gives a text for a number.
    pub open spec fn gives(self, n: u64, t: Seq<char>) -> bool {
        exists|s: String| s@ == t && #[trigger] call_ensures(self.write, (n,), s)
    }

    /// The text of a number.
    pub open spec fn text(self, n: u64) -> Seq<char> {
        choose|t: Seq<char>| self.gives(n, t)
    }

    /// The text of a number, as the function gives it.
    pub fn to_text(&self, n: u64) -> (r: String)
        requires
            self.wf(),
        ensures
            r@ == self.text(n),
            call_ensures(self.write, (n,), r),
    {
        let r = (self.write)(n);
        assert(self.gives(n, r@));
        r
    }
}

/// A number as a SQL literal.
pub open spec fn number_literal<L: Fn(u64) -> String>(w: NumberWriter<L>, n: u64) -> Seq<char> {
    "CAST("@ + w.text(n) + " AS DOUBLE)"@
}

/// A number as a SQL literal. The cast says what the literal's decimal point
/// implies.
pub fn f64_sql_lit<L: Fn(u64) -> String>(w: &NumberWriter<L>, n: u64) -> (r: String)
    requires
        w.wf(),
    ensures
        r@ == number_literal(*w, n),
{
    let mut r = "CAST(".to_string();
    r.append(w.to_text(n).as_str());
    r.append(" AS DOUBLE)");
    r
}

// ---------- statements ----------

/// The columns that a statement returns, in order.
#[derive(Debug, Clone, Copy, PartialEq, Eq, Structural)]
pub enum Columns {
    /// Metric, labels, timestamp and value: one row for each sample.
    Samples,
    /// Metric, labels and value: one row for each series, at that instant.
    Latest(i64),
    /// Metric, labels and value, which may be missing: one row for each series.
    Values,
    /// So many label values, and the aggregate: one row for each group, at that
    /// instant.
    Groups(usize, i64),
    /// Timestamp, so many label values, and the aggregate: one row for each group
    /// and timestamp.
    TimedGroups(usize),
}

/// A statement to run.
#[derive(Debug)]
pub struct Fetch {
    pub sql: String,
    pub columns: Columns,
}

/// The views of a list of statements.
pub open spec fn fetch_views(s: Seq<Fetch>) -> Seq<(Seq<char>, Columns)> {
    s.map_values(|f: Fetch| (f.sql@, f.columns))
}

fn single(sql: String, columns: Columns) -> (r: Vec<Fetch>)
    ensures
        fetch_views(r@) == seq![(sql@, columns)],
{
    let mut r: Vec<Fetch> = Vec::new();
    r.push(Fetch { sql, columns });
    assert(fetch_views(r@) =~= seq![(sql@, columns)]);
    r
}

fn no_fetch() -> (r: Vec<Fetch>)
    ensures
        fetch_views(r@) == Seq::<(Seq<char>, Columns)>::empty(),
{
    let r: Vec<Fetch> = Vec::new();
    assert(fetch_views(r@) =~= Seq::empty());
    r
}

fn one_after_another(a: Vec<Fetch>, b: Vec<Fetch>) -> (r: Vec<Fetch>)
    ensures
        fetch_views(r@) == fetch_views(a@) + fetch_views(b@),
{
    let ghost all = b@;
    let mut r = a;
    for f in it: b
        invariant
            it.seq() == all,
            r@ == a@ + all.take(it.index() as int),
            all.take(all.len() as int) =~= all,
    {
        r.push(f);
        assert(r@ =~= a@ + all.take(it.index() as int + 1));
    }
    assert(fetch_views(r@) =~= fetch_views(a@) + fetch_views(b@));
    r
}

// ---------- at one instant ----------

/// Whether the windows of an expression at an instant begin at instants that 64
/// bits hold.
pub open spec fn instant_fits(e: &QueryExpr, time_us: i64) -> bool
    decreases e,
{
    proof {
        law_steps_go_inward(e);
    }
    match step_of(e) {
        Step::RangeFn { range_us, .. } => i64::MIN <= time_us - range_us <= i64::MAX,
        Step::AggregatePoints { inner, .. } => instant_fits(inner, time_us),
        Step::Quantile { inner, .. } => instant_fits(inner, time_us),
        Step::TopKPoints { inner, .. } => instant_fits(inner, time_us),
        Step::Operate { lhs, rhs, .. } => {
            &&& (lhs matches Operand::Vector(x) ==> instant_fits(x, time_us))
            &&& (rhs matches Operand::Vector(x) ==> instant_fits(x, time_us))
        },
        Step::Nothing => true,
        _ => time_us - LOOKBACK_US >= i64::MIN,
    }
}

/// Whether the windows of an expression at an instant begin at instants that 64
/// bits hold.
pub fn instant_in_range(e: &QueryExpr, time_us: i64) -> (r: bool)
    ensures
        r == instant_fits(e, time_us),
    decreases e,
{
    proof {
        law_steps_go_inward(e);
    }
    match next_step(e) {
        Step::RangeFn { range_us, .. } => time_us.checked_sub(range_us).is_some(),
        Step::AggregatePoints { inner, .. } => instant_in_range(inner, time_us),
        Step::Quantile { inner, .. } => instant_in_range(inner, time_us),
        Step::TopKPoints { inner, .. } => instant_in_range(inner, time_us),
        Step::Operate { lhs, rhs, .. } => {
            let l = match lhs {
                Operand::Scalar(_) => true,
                Operand::Vector(x) => instant_in_range(x, time_us),
            };
            let r = match rhs {
                Operand::Scalar(_) => true,
                Operand::Vector(x) => instant_in_range(x, time_us),
            };
            l && r
        },
        Step::Nothing => true,
        _ => time_us.checked_sub(LOOKBACK_US).is_some(),
    }
}

/// The statements that an expression fetches at an instant, in the order they
/// are run.
pub open spec fn instant_statements<L: Fn(u64) -> String>(
    w: NumberWriter<L>,
    e: &QueryExpr,
    time_us: i64,
) -> Seq<(Seq<char>, Columns)>
    decreases e,
{
    proof {
        law_steps_go_inward(e);
    }
    match step_of(e) {
        Step::Selector(sel) => seq![
            (selector_text(sel@, (time_us - LOOKBACK_US) as i64, time_us), Columns::Samples),
        ],
        Step::RangeFn { sel, range_us, op } => seq![
            (
                range_fn_text(
                    op,
                    "WHERE "@ + where_conditions(sel@, (time_us - range_us) as i64, time_us),
                ),
                Columns::Values,
            ),
        ],
        Step::AggregateSql { sel, op, modifier } => {
            let keys = group_keys(modifier);
            seq![
                (
                    instant_aggregate_text(sel@, op, keys, time_us),
                    Columns::Groups(keys.len() as usize, time_us),
                ),
            ]
        },
        Step::AggregatePoints { inner, .. } => instant_statements(w, inner, time_us),
        Step::Quantile { inner, .. } => instant_statements(w, inner, time_us),
        Step::TopKSql { sel, n, top, modifier } => if n == 0 {
            Seq::empty()
        } else {
            seq![
                (
                    instant_topk_text(sel@, n, top, group_keys(modifier), time_us),
                    Columns::Latest(time_us),
                ),
            ]
        },
        Step::TopKPoints { inner, .. } => instant_statements(w, inner, time_us),
        Step::ScalarSql { scalar, sel, op, return_bool, scalar_on_left } => seq![
            (
                scalar_instant_text(
                    sel@,
                    number_literal(w, scalar),
                    op,
                    return_bool,
                    scalar_on_left,
                    time_us,
                ),
                Columns::Latest(time_us),
            ),
        ],
        Step::Operate { lhs, rhs, .. } => {
            let l = match lhs {
                Operand::Scalar(_) => Seq::empty(),
                Operand::Vector(x) => instant_statements(w, x, time_us),
            };
            let r = match rhs {
                Operand::Scalar(_) => Seq::empty(),
                Operand::Vector(x) => instant_statements(w, x, time_us),
            };
            l + r
        },
        Step::Nothing => Seq::empty(),
    }
}

/// The statements that an expression fetches at an instant, in the order they
/// are to be run.
pub fn instant_fetches<L: Fn(u64) -> String>(
    w: &NumberWriter<L>,
    e: &QueryExpr,
    time_us: i64,
) -> (r: Vec<Fetch>)
    requires
        w.wf(),
        instant_fits(e, time_us),
    ensures
        fetch_views(r@) == instant_statements(*w, e, time_us),
    decreases e,
{
    proof {
        law_steps_go_inward(e);
    }
    match next_step(e) {
        Step::Selector(sel) => single(instant_selector_sql(sel, time_us), Columns::Samples),
        Step::RangeFn { sel, range_us, op } => single(
            instant_range_fn_sql(sel, range_us, op, time_us),
            Columns::Values,
        ),
        Step::AggregateSql { sel, op, modifier } => {
            let n: usize = aggregate_group_keys(modifier).len();
            single(instant_aggregate_sql(sel, op, modifier, time_us), Columns::Groups(n, time_us))
        },
        Step::AggregatePoints { inner, .. } => instant_fetches(w, inner, time_us),
        Step::Quantile { inner, .. } => instant_fetches(w, inner, time_us),
        Step::TopKSql { sel, n, top, modifier } => match instant_topk_sql(
            sel,
            n,
            top,
            modifier,
            time_us,
        ) {
            Some(sql) => single(sql, Columns::Latest(time_us)),
            None => no_fetch(),
        },
        Step::TopKPoints { inner, .. } => instant_fetches(w, inner, time_us),
        Step::ScalarSql { scalar, sel, op, return_bool, scalar_on_left } => {
            let literal = f64_sql_lit(w, scalar);
            single(
                scalar_instant_sql(sel, literal.as_str(), op, return_bool, scalar_on_left, time_us),
                Columns::Latest(time_us),
            )
        },
        Step::Operate { lhs, rhs, .. } => {
            let l = match lhs {
                Operand::Scalar(_) => no_fetch(),
                Operand::Vector(x) => instant_fetches(w, x, time_us),
            };
            let r = match rhs {
                Operand::Scalar(_) => no_fetch(),
                Operand::Vector(x) => instant_fetches(w, x, time_us),
            };
            one_after_another(l, r)
        },
        Step::Nothing => no_fetch(),
    }
}

// ---------- over a range ----------

/// Whether the windows of an expression over a range begin at instants that 64
/// bits hold.
pub open spec fn range_fits(e: &QueryExpr, start_us: i64) -> bool
    decreases e,
{
    proof {
        law_steps_go_inward(e);
    }
    match step_of(e) {
        Step::RangeFn { range_us, .. } => i64::MIN <= start_us - range_us <= i64::MAX,
        Step::AggregatePoints { inner, .. } => range_fits(inner, start_us),
        Step::Quantile { inner, .. } => range_fits(inner, start_us),
        Step::TopKPoints { inner, .. } => range_fits(inner, start_us),
        Step::Operate { lhs, rhs, .. } => {
            &&& (lhs matches Operand::Vector(x) ==> range_fits(x, start_us))
            &&& (rhs matches Operand::Vector(x) ==> range_fits(x, start_us))
        },
        _ => true,
    }
}

/// Whether the windows of an expression over a range begin at instants that 64
/// bits hold.
pub fn range_in_range(e: &QueryExpr, start_us: i64) -> (r: bool)
    ensures
        r == range_fits(e, start_us),
    decreases e,
{
    proof {
        law_steps_go_inward(e);
    }
    match next_step(e) {
        Step::RangeFn { range_us, .. } => start_us.checked_sub(range_us).is_some(),
        Step::AggregatePoints { inner, .. } => range_in_range(inner, start_us),
        Step::Quantile { inner, .. } => range_in_range(inner, start_us),
        Step::TopKPoints { inner, .. } => range_in_range(inner, start_us),
        Step::Operate { lhs, rhs, .. } => {
            let l = match lhs {
                Operand::Scalar(_) => true,
                Operand::Vector(x) => range_in_range(x, start_us),
            };
            let r = match rhs {
                Operand::Scalar(_) => true,
                Operand::Vector(x) => range_in_range(x, start_us),
            };
            l && r
        },
        _ => true,
    }
}

/// The statements that an expression fetches over a range, in the order they are
/// run.
pub open spec fn range_statements<L: Fn(u64) -> String>(
    w: NumberWriter<L>,
    e: &QueryExpr,
    start_us: i64,
    end_us: i64,
) -> Seq<(Seq<char>, Columns)>
    decreases e,
{
    proof {
        law_steps_go_inward(e);
    }
    match step_of(e) {
        Step::Selector(sel) => seq![(selector_text(sel@, start_us, end_us), Columns::Samples)],
        Step::RangeFn { sel, range_us, .. } => seq![
            (selector_text(sel@, (start_us - range_us) as i64, end_us), Columns::Samples),
        ],
        Step::AggregateSql { sel, op, modifier } => {
            let keys = group_keys(modifier);
            seq![
                (
                    range_aggregate_text(sel@, op, keys, start_us, end_us),
                    Columns::TimedGroups(keys.len() as usize),
                ),
            ]
        },
        Step::AggregatePoints { inner, .. } => range_statements(w, inner, start_us, end_us),
        Step::Quantile { inner, .. } => range_statements(w, inner, start_us, end_us),
        Step::TopKSql { sel, n, top, modifier } => if n == 0 {
            Seq::empty()
        } else {
            seq![
                (
                    range_topk_text(sel@, n, top, group_keys(modifier), start_us, end_us),
                    Columns::Samples,
                ),
            ]
        },
        Step::TopKPoints { inner, .. } => range_statements(w, inner, start_us, end_us),
        Step::ScalarSql { scalar, sel, op, return_bool, scalar_on_left } => seq![
            (
                scalar_range_text(
                    sel@,
                    number_literal(w, scalar),
                    op,
                    return_bool,
                    scalar_on_left,
                    start_us,
                    end_us,
                ),
                Columns::Samples,
            ),
        ],
        Step::Operate { lhs, rhs, .. } => {
            let l = match lhs {
                Operand::Scalar(_) => Seq::empty(),
                Operand::Vector(x) => range_statements(w, x, start_us, end_us),
            };
            let r = match rhs {
                Operand::Scalar(_) => Seq::empty(),
                Operand::Vector(x) => range_statements(w, x, start_us, end_us),
            };
            l + r
        },
        Step::Nothing => Seq::empty(),
    }
}

/// The statements that an expression fetches over a range, in the order they are
/// to be run.
pub fn range_fetches<L: Fn(u64) -> String>(
    w: &NumberWriter<L>,
    e: &QueryExpr,
    start_us: i64,
    end_us: i64,
) -> (r: Vec<Fetch>)
    requires
        w.wf(),
        range_fits(e, start_us),
    ensures
        fetch_views(r@) == range_statements(*w, e, start_us, end_us),
    decreases e,
{
    proof {
        law_steps_go_inward(e);
    }
    match next_step(e) {
        Step::Selector(sel) => single(selector_sql(sel, start_us, end_us), Columns::Samples),
        Step::RangeFn { sel, range_us, .. } => single(
            selector_sql(sel, start_us - range_us, end_us),
            Columns::Samples,
        ),
        Step::AggregateSql { sel, op, modifier } => {
            let n: usize = aggregate_group_keys(modifier).len();
            single(
                range_aggregate_sql(sel, op, modifier, start_us, end_us),
                Columns::TimedGroups(n),
            )
        },
        Step::AggregatePoints { inner, .. } => range_fetches(w, inner, start_us, end_us),
        Step::Quantile { inner, .. } => range_fetches(w, inner, start_us, end_us),
        Step::TopKSql { sel, n, top, modifier } => match range_topk_sql(
            sel,
            n,
            top,
            modifier,
            start_us,
            end_us,
        ) {
            Some(sql) => single(sql, Columns::Samples),
            None => no_fetch(),
        },
        Step::TopKPoints { inner, .. } => range_fetches(w, inner, start_us, end_us),
        Step::ScalarSql { scalar, sel, op, return_bool, scalar_on_left } => {
            let literal = f64_sql_lit(w, scalar);
            single(
                scalar_range_sql(
                    sel,
                    literal.as_str(),
                    op,
                    return_bool,
                    scalar_on_left,
                    start_us,
                    end_us,
                ),
                Columns::Samples,
            )
        },
        Step::Operate { lhs, rhs, .. } => {
            let l = match lhs {
                Operand::Scalar(_) => no_fetch(),
                Operand::Vector(x) => range_fetches(w, x, start_us, end_us),
            };
            let r = match rhs {
                Operand::Scalar(_) => no_fetch(),
                Operand::Vector(x) => range_fetches(w, x, start_us, end_us),
            };
            one_after_another(l, r)
        },
        Step::Nothing => no_fetch(),
    }
}

} // verus!
