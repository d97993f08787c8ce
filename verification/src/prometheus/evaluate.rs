//! From the rows that an expression's statements returned to its points.
//!
//! The rows come in the order of the statements. Rows that are missing, or that
//! are not of the columns that were asked for, leave the expression without
//! points.

use vstd::prelude::*;
use crate::prometheus::aggregate::{
    aggregate_instant_points, aggregate_range_points, aggregated, aggregated_series,
};
use crate::prometheus::ast::{Grouping, QueryExpr};
use crate::prometheus::decode::{
    aggregate_points, aggregate_rows_to_points, aggregate_rows_to_series, aggregate_series,
    finite_points, instant_selector, range_fn_points, range_range_fn, range_selector, rows_fit,
    GroupRow, ValueRow,
};
use crate::prometheus::fetch::{instant_statements, range_statements, Columns, NumberWriter};
use crate::prometheus::histogram::{
    histogram_points, histogram_quantile_instant, histogram_quantile_range, histogram_series,
    NumberReader,
};
use crate::prometheus::numbers::Arithmetic;
use crate::prometheus::operate::{
    matched_points, matched_series, operate_instant, operate_range, scalar_points, scalar_series,
    Side, SideR,
};
use crate::prometheus::plan::{
    law_steps_go_inward, next_step, step_of, BinOp, Operand, Step,
};
use crate::prometheus::rows::{
    filter_rows, kept_rows, point_views, range_views, InstantPoint, PointView, RangePoints,
    RangeView,
};
use crate::prometheus::series::{group_rows_by_series, latest_of, series_of, window_series};
use crate::prometheus::sql::{aggregate_group_keys, group_keys};
use crate::prometheus::topk::{topk_instant_points, topk_range_points, top_points, top_series};

verus! {

// ---------- rows ----------

/// The rows that a statement returned.
pub enum Rows {
    /// Of samples, or of the latest sample of each series.
    Points(Vec<InstantPoint>),
    /// Of values that may be missing.
    Values(Vec<ValueRow>),
    /// Of groups.
    Groups(Vec<GroupRow>),
}

/// Whether rows are of those columns.
pub open spec fn of_columns(rows: Rows, columns: Columns) -> bool {
    match columns {
        Columns::Samples | Columns::Latest(_) => rows is Points,
        Columns::Values => rows is Values,
        Columns::Groups(n, _) | Columns::TimedGroups(n) => match rows {
            Rows::Groups(g) => forall|i: int|
                0 <= i < g@.len() ==> (#[trigger] g@[i]).labels@.len() == n,
            _ => false,
        },
    }
}

/// The rows that are still to be used, the next one first, of a stack that holds
/// the next one last.
spec fn pending(stack: Seq<Rows>) -> Seq<Rows> {
    stack.reverse()
}

fn next_rows(stack: &mut Vec<Rows>) -> (r: Option<Rows>)
    ensures
        pending(old(stack)@).len() == 0 ==> r is None && pending(final(stack)@) == pending(
            old(stack)@,
        ),
        pending(old(stack)@).len() > 0 ==> r == Some(pending(old(stack)@)[0]) && pending(
            final(stack)@,
        ) == pending(old(stack)@).skip(1),
{
    let r = stack.pop();
    proof {
        if old(stack)@.len() > 0 {
            assert(pending(stack@) =~= pending(old(stack)@).skip(1));
        }
    }
    r
}

fn stacked(rows: Vec<Rows>) -> (r: Vec<Rows>)
    ensures
        pending(r@) == rows@,
{
    let ghost all = rows@;
    let mut from = rows;
    let mut r: Vec<Rows> = Vec::new();
    assert(all.take(all.len() as int) =~= all);
    assert(r@ =~= all.skip(all.len() as int).reverse());
    while from.len() > 0
        invariant
            from@.len() <= all.len(),
            from@ == all.take(from@.len() as int),
            r@ == all.skip(from@.len() as int).reverse(),
        decreases from@.len(),
    {
        let ghost n = from@.len() as int;
        if let Some(x) = from.pop() {
            r.push(x);
            assert(r@ =~= all.skip(n - 1).reverse());
        }
    }
    assert(all.skip(0) =~= all);
    assert(pending(r@) =~= all);
    r
}

fn fits(rows: &Vec<GroupRow>, n: usize) -> (r: bool)
    ensures
        r == forall|i: int| 0 <= i < rows@.len() ==> (#[trigger] rows@[i]).labels@.len() == n,
{
    let mut i: usize = 0;
    while i < rows.len()
        invariant
            i <= rows@.len(),
            forall|j: int| 0 <= j < i ==> (#[trigger] rows@[j]).labels@.len() == n,
        decreases rows@.len() - i,
    {
        if rows[i].labels.len() != n {
            return false;
        }
        i += 1;
    }
    true
}

// ---------- at one instant ----------

/// The points of a step that has its rows.
pub open spec fn fetched_points(step: Step, rows: Rows, time_us: i64) -> Option<Seq<PointView>> {
    match (step, rows) {
        (Step::Selector(sel), Rows::Points(p)) => Some(
            latest_of(kept_rows(point_views(p@), sel@)),
        ),
        (Step::RangeFn { sel, .. }, Rows::Values(v)) => Some(finite_points(v@, sel@, time_us)),
        (Step::AggregateSql { modifier, .. }, Rows::Groups(g)) => if rows_fit(
            g@,
            group_keys(modifier),
        ) {
            Some(aggregate_points(g@, group_keys(modifier)))
        } else {
            None
        },
        (Step::TopKSql { .. }, Rows::Points(p)) => Some(point_views(p@)),
        (Step::ScalarSql { sel, .. }, Rows::Points(p)) => Some(kept_rows(point_views(p@), sel@)),
        _ => None,
    }
}

/// A value that an operator works on.
pub enum SideView {
    Scalar(u64),
    Vector(Seq<PointView>),
}

/// What an operator makes of two values. Two scalars make no series.
pub open spec fn operated<C: Fn(BinOp, u64, u64) -> u64, W: Fn(i128) -> u64>(
    ar: Arithmetic<C, W>,
    left: SideView,
    right: SideView,
    op: BinOp,
    return_bool: bool,
) -> Seq<PointView> {
    match (left, right) {
        (SideView::Scalar(s), SideView::Vector(p)) => scalar_points(ar, s, p, op, return_bool, true),
        (SideView::Vector(p), SideView::Scalar(s)) => scalar_points(
            ar,
            s,
            p,
            op,
            return_bool,
            false,
        ),
        (SideView::Vector(p), SideView::Vector(q)) => matched_points(ar, p, q, op, return_bool),
        (SideView::Scalar(_), SideView::Scalar(_)) => Seq::empty(),
    }
}

/// The points of an expression at an instant, from the rows of its statements,
/// and the rows that are left over.
pub open spec fn instant_value<
    C: Fn(BinOp, u64, u64) -> u64,
    W: Fn(i128) -> u64,
    R: Fn(&str) -> Option<u64>,
>(
    ar: Arithmetic<C, W>,
    reader: NumberReader<R>,
    e: &QueryExpr,
    time_us: i64,
    rows: Seq<Rows>,
) -> (Option<Seq<PointView>>, Seq<Rows>)
    decreases e,
{
    proof {
        law_steps_go_inward(e);
    }
    match step_of(e) {
        Step::AggregatePoints { inner, op, modifier } => {
            let (p, left) = instant_value(ar, reader, inner, time_us, rows);
            match p {
                Some(v) => (Some(aggregated(ar, v, op, modifier, time_us)), left),
                None => (None, left),
            }
        },
        Step::Quantile { inner, quantile } => {
            let (p, left) = instant_value(ar, reader, inner, time_us, rows);
            match p {
                Some(v) => (Some(histogram_points(ar, reader, v, quantile, time_us)), left),
                None => (None, left),
            }
        },
        Step::TopKPoints { inner, n, top, modifier } => {
            let (p, left) = instant_value(ar, reader, inner, time_us, rows);
            match p {
                Some(v) => (Some(top_points(v, n, top, modifier)), left),
                None => (None, left),
            }
        },
        Step::Operate { lhs, rhs, op, return_bool } => {
            let (l, after) = match lhs {
                Operand::Scalar(s) => (Some(SideView::Scalar(s)), rows),
                Operand::Vector(x) => {
                    let (p, left) = instant_value(ar, reader, x, time_us, rows);
                    (
                        match p {
                            Some(v) => Some(SideView::Vector(v)),
                            None => None,
                        },
                        left,
                    )
                },
            };
            let (r, left) = match rhs {
                Operand::Scalar(s) => (Some(SideView::Scalar(s)), after),
                Operand::Vector(x) => {
                    let (p, left) = instant_value(ar, reader, x, time_us, after);
                    (
                        match p {
                            Some(v) => Some(SideView::Vector(v)),
                            None => None,
                        },
                        left,
                    )
                },
            };
            match (l, r) {
                (Some(a), Some(b)) => (Some(operated(ar, a, b, op, return_bool)), left),
                _ => (None, left),
            }
        },
        Step::Nothing => (Some(Seq::empty()), rows),
        Step::TopKSql { n: 0, .. } => (Some(Seq::empty()), rows),
        step => if rows.len() == 0 {
            (None, rows)
        } else {
            (fetched_points(step, rows[0], time_us), rows.skip(1))
        },
    }
}

/// Whether points are those of a value.
pub open spec fn are_points(r: Option<Vec<InstantPoint>>, want: Option<Seq<PointView>>) -> bool {
    match want {
        Some(v) => r is Some && point_views(r->0@) == v,
        None => r is None,
    }
}

fn shape_points(step: Step, rows: Rows, time_us: i64) -> (r: Option<Vec<InstantPoint>>)
    ensures
        are_points(r, fetched_points(step, rows, time_us)),
{
    match (step, rows) {
        (Step::Selector(sel), Rows::Points(p)) => Some(instant_selector(sel, p)),
        (Step::RangeFn { sel, .. }, Rows::Values(v)) => Some(range_fn_points(sel, v, time_us)),
        (Step::AggregateSql { modifier, .. }, Rows::Groups(g)) => {
            let keys = aggregate_group_keys(modifier);
            if fits(&g, keys.len()) {
                Some(aggregate_rows_to_points(g, &keys))
            } else {
                None
            }
        },
        (Step::TopKSql { .. }, Rows::Points(p)) => Some(p),
        (Step::ScalarSql { sel, .. }, Rows::Points(p)) => Some(filter_rows(sel, p)),
        _ => None,
    }
}

fn instant_points<C: Fn(BinOp, u64, u64) -> u64, W: Fn(i128) -> u64, R: Fn(&str) -> Option<u64>>(
    ar: &Arithmetic<C, W>,
    reader: &NumberReader<R>,
    e: &QueryExpr,
    time_us: i64,
    stack: &mut Vec<Rows>,
) -> (r: Option<Vec<InstantPoint>>)
    requires
        ar.wf(),
        reader.wf(),
    ensures
        ({
            let (want, left) = instant_value(*ar, *reader, e, time_us, pending(old(stack)@));
            are_points(r, want) && pending(final(stack)@) == left
        }),
    decreases e,
{
    proof {
        law_steps_go_inward(e);
    }
    match next_step(e) {
        Step::AggregatePoints { inner, op, modifier } => match instant_points(
            ar,
            reader,
            inner,
            time_us,
            stack,
        ) {
            Some(p) => Some(aggregate_instant_points(ar, p, op, modifier, time_us)),
            None => None,
        },
        Step::Quantile { inner, quantile } => match instant_points(
            ar,
            reader,
            inner,
            time_us,
            stack,
        ) {
            Some(p) => Some(histogram_quantile_instant(ar, reader, p, quantile, time_us)),
            None => None,
        },
        Step::TopKPoints { inner, n, top, modifier } => match instant_points(
            ar,
            reader,
            inner,
            time_us,
            stack,
        ) {
            Some(p) => Some(topk_instant_points(p, n, top, modifier)),
            None => None,
        },
        Step::Operate { lhs, rhs, op, return_bool } => {
            let l = match lhs {
                Operand::Scalar(s) => Some(Side::Scalar(s)),
                Operand::Vector(x) => match instant_points(ar, reader, x, time_us, stack) {
                    Some(p) => Some(Side::Vector(p)),
                    None => None,
                },
            };
            let r = match rhs {
                Operand::Scalar(s) => Some(Side::Scalar(s)),
                Operand::Vector(x) => match instant_points(ar, reader, x, time_us, stack) {
                    Some(p) => Some(Side::Vector(p)),
                    None => None,
                },
            };
            match (l, r) {
                (Some(a), Some(b)) => Some(operate_instant(ar, a, b, op, return_bool)),
                _ => None,
            }
        },
        Step::Nothing => Some(no_points()),
        Step::TopKSql { n: 0, .. } => Some(no_points()),
        step => match next_rows(stack) {
            Some(rows) => shape_points(step, rows, time_us),
            None => None,
        },
    }
}

fn no_points() -> (r: Vec<InstantPoint>)
    ensures
        point_views(r@) == Seq::<PointView>::empty(),
{
    let r: Vec<InstantPoint> = Vec::new();
    assert(point_views(r@) =~= Seq::empty());
    r
}

/// The points of an expression at an instant, from the rows of its statements,
/// in the order of the statements; `None` where the rows are not theirs.
pub fn evaluate_instant<
    C: Fn(BinOp, u64, u64) -> u64,
    W: Fn(i128) -> u64,
    R: Fn(&str) -> Option<u64>,
>(
    ar: &Arithmetic<C, W>,
    reader: &NumberReader<R>,
    e: &QueryExpr,
    time_us: i64,
    rows: Vec<Rows>,
) -> (r: Option<Vec<InstantPoint>>)
    requires
        ar.wf(),
        reader.wf(),
    ensures
        are_points(r, instant_value(*ar, *reader, e, time_us, rows@).0),
{
    let mut stack = stacked(rows);
    instant_points(ar, reader, e, time_us, &mut stack)
}


// ---------- over a range ----------

/// The instants that a range query steps through.
#[derive(Debug, Clone, Copy)]
pub struct Span {
    pub start_us: i64,
    pub end_us: i64,
    pub step_us: i64,
}

/// The series of a step that has its rows.
pub open spec fn fetched_series<C: Fn(BinOp, u64, u64) -> u64, W: Fn(i128) -> u64>(
    ar: Arithmetic<C, W>,
    step: Step,
    rows: Rows,
    span: Span,
) -> Option<Seq<RangeView>> {
    match (step, rows) {
        (Step::Selector(sel), Rows::Points(p)) => Some(
            series_of(kept_rows(point_views(p@), sel@)),
        ),
        (Step::RangeFn { sel, range_us, op }, Rows::Points(p)) => Some(
            window_series(
                ar,
                series_of(kept_rows(point_views(p@), sel@)),
                op,
                range_us as int,
                span.start_us as int,
                span.end_us as int,
                span.step_us as int,
            ),
        ),
        (Step::AggregateSql { modifier, .. }, Rows::Groups(g)) => if rows_fit(
            g@,
            group_keys(modifier),
        ) {
            Some(aggregate_series(g@, group_keys(modifier)))
        } else {
            None
        },
        (Step::TopKSql { .. }, Rows::Points(p)) => Some(series_of(point_views(p@))),
        (Step::ScalarSql { sel, .. }, Rows::Points(p)) => Some(
            series_of(kept_rows(point_views(p@), sel@)),
        ),
        _ => None,
    }
}

/// A value that an operator works on.
pub enum SideRView {
    Scalar(u64),
    Vector(Seq<RangeView>),
}

/// What an operator makes of two values. Two scalars make no series.
pub open spec fn operated_series<C: Fn(BinOp, u64, u64) -> u64, W: Fn(i128) -> u64>(
    ar: Arithmetic<C, W>,
    left: SideRView,
    right: SideRView,
    op: BinOp,
    return_bool: bool,
) -> Seq<RangeView> {
    match (left, right) {
        (SideRView::Scalar(s), SideRView::Vector(p)) => scalar_series(ar, s, p, op, return_bool, true),
        (SideRView::Vector(p), SideRView::Scalar(s)) => scalar_series(
            ar,
            s,
            p,
            op,
            return_bool,
            false,
        ),
        (SideRView::Vector(p), SideRView::Vector(q)) => matched_series(ar, p, q, op, return_bool),
        (SideRView::Scalar(_), SideRView::Scalar(_)) => Seq::empty(),
    }
}

/// The series of an expression over a range, from the rows of its statements, and
/// the rows that are left over.
pub open spec fn range_value<
    C: Fn(BinOp, u64, u64) -> u64,
    W: Fn(i128) -> u64,
    R: Fn(&str) -> Option<u64>,
>(
    ar: Arithmetic<C, W>,
    reader: NumberReader<R>,
    e: &QueryExpr,
    span: Span,
    rows: Seq<Rows>,
) -> (Option<Seq<RangeView>>, Seq<Rows>)
    decreases e,
{
    proof {
        law_steps_go_inward(e);
    }
    match step_of(e) {
        Step::AggregatePoints { inner, op, modifier } => {
            let (p, left) = range_value(ar, reader, inner, span, rows);
            match p {
                Some(v) => (Some(aggregated_series(ar, v, op, modifier)), left),
                None => (None, left),
            }
        },
        Step::Quantile { inner, quantile } => {
            let (p, left) = range_value(ar, reader, inner, span, rows);
            match p {
                Some(v) => (Some(histogram_series(ar, reader, v, quantile)), left),
                None => (None, left),
            }
        },
        Step::TopKPoints { inner, n, top, modifier } => {
            let (p, left) = range_value(ar, reader, inner, span, rows);
            match p {
                Some(v) => (Some(top_series(v, n, top, modifier)), left),
                None => (None, left),
            }
        },
        Step::Operate { lhs, rhs, op, return_bool } => {
            let (l, after) = match lhs {
                Operand::Scalar(s) => (Some(SideRView::Scalar(s)), rows),
                Operand::Vector(x) => {
                    let (p, left) = range_value(ar, reader, x, span, rows);
                    (
                        match p {
                            Some(v) => Some(SideRView::Vector(v)),
                            None => None,
                        },
                        left,
                    )
                },
            };
            let (r, left) = match rhs {
                Operand::Scalar(s) => (Some(SideRView::Scalar(s)), after),
                Operand::Vector(x) => {
                    let (p, left) = range_value(ar, reader, x, span, after);
                    (
                        match p {
                            Some(v) => Some(SideRView::Vector(v)),
                            None => None,
                        },
                        left,
                    )
                },
            };
            match (l, r) {
                (Some(a), Some(b)) => (Some(operated_series(ar, a, b, op, return_bool)), left),
                _ => (None, left),
            }
        },
        Step::Nothing => (Some(Seq::empty()), rows),
        Step::TopKSql { n: 0, .. } => (Some(Seq::empty()), rows),
        step => if rows.len() == 0 {
            (None, rows)
        } else {
            (fetched_series(ar, step, rows[0], span), rows.skip(1))
        },
    }
}

/// Whether series are those of a value.
pub open spec fn are_series(r: Option<Vec<RangePoints>>, want: Option<Seq<RangeView>>) -> bool {
    match want {
        Some(v) => r is Some && range_views(r->0@) == v,
        None => r is None,
    }
}

fn shape_series<C: Fn(BinOp, u64, u64) -> u64, W: Fn(i128) -> u64>(
    ar: &Arithmetic<C, W>,
    step: Step,
    rows: Rows,
    span: Span,
) -> (r: Option<Vec<RangePoints>>)
    requires
        ar.wf(),
        span.step_us > 0,
    ensures
        are_series(r, fetched_series(*ar, step, rows, span)),
{
    match (step, rows) {
        (Step::Selector(sel), Rows::Points(p)) => Some(range_selector(sel, p)),
        (Step::RangeFn { sel, range_us, op }, Rows::Points(p)) => Some(
            range_range_fn(ar, sel, p, range_us, op, span.start_us, span.end_us, span.step_us),
        ),
        (Step::AggregateSql { modifier, .. }, Rows::Groups(g)) => {
            let keys = aggregate_group_keys(modifier);
            if fits(&g, keys.len()) {
                Some(aggregate_rows_to_series(g, &keys))
            } else {
                None
            }
        },
        (Step::TopKSql { .. }, Rows::Points(p)) => Some(group_rows_by_series(p)),
        (Step::ScalarSql { sel, .. }, Rows::Points(p)) => Some(range_selector(sel, p)),
        _ => None,
    }
}

fn range_points<C: Fn(BinOp, u64, u64) -> u64, W: Fn(i128) -> u64, R: Fn(&str) -> Option<u64>>(
    ar: &Arithmetic<C, W>,
    reader: &NumberReader<R>,
    e: &QueryExpr,
    span: Span,
    stack: &mut Vec<Rows>,
) -> (r: Option<Vec<RangePoints>>)
    requires
        ar.wf(),
        reader.wf(),
        span.step_us > 0,
    ensures
        ({
            let (want, left) = range_value(*ar, *reader, e, span, pending(old(stack)@));
            are_series(r, want) && pending(final(stack)@) == left
        }),
    decreases e,
{
    proof {
        law_steps_go_inward(e);
    }
    match next_step(e) {
        Step::AggregatePoints { inner, op, modifier } => match range_points(
            ar,
            reader,
            inner,
            span,
            stack,
        ) {
            Some(p) => Some(aggregate_range_points(ar, p, op, modifier)),
            None => None,
        },
        Step::Quantile { inner, quantile } => match range_points(
            ar,
            reader,
            inner,
            span,
            stack,
        ) {
            Some(p) => Some(histogram_quantile_range(ar, reader, p, quantile)),
            None => None,
        },
        Step::TopKPoints { inner, n, top, modifier } => match range_points(
            ar,
            reader,
            inner,
            span,
            stack,
        ) {
            Some(p) => Some(topk_range_points(p, n, top, modifier)),
            None => None,
        },
        Step::Operate { lhs, rhs, op, return_bool } => {
            let l = match lhs {
                Operand::Scalar(s) => Some(SideR::Scalar(s)),
                Operand::Vector(x) => match range_points(ar, reader, x, span, stack) {
                    Some(p) => Some(SideR::Vector(p)),
                    None => None,
                },
            };
            let r = match rhs {
                Operand::Scalar(s) => Some(SideR::Scalar(s)),
                Operand::Vector(x) => match range_points(ar, reader, x, span, stack) {
                    Some(p) => Some(SideR::Vector(p)),
                    None => None,
                },
            };
            match (l, r) {
                (Some(a), Some(b)) => Some(operate_range(ar, a, b, op, return_bool)),
                _ => None,
            }
        },
        Step::Nothing => Some(no_series()),
        Step::TopKSql { n: 0, .. } => Some(no_series()),
        step => match next_rows(stack) {
            Some(rows) => shape_series(ar, step, rows, span),
            None => None,
        },
    }
}

fn no_series() -> (r: Vec<RangePoints>)
    ensures
        range_views(r@) == Seq::<RangeView>::empty(),
{
    let r: Vec<RangePoints> = Vec::new();
    assert(range_views(r@) =~= Seq::empty());
    r
}

/// The series of an expression over a range, from the rows of its statements, in
/// the order of the statements; `None` where the rows are not theirs.
pub fn evaluate_range<
    C: Fn(BinOp, u64, u64) -> u64,
    W: Fn(i128) -> u64,
    R: Fn(&str) -> Option<u64>,
>(
    ar: &Arithmetic<C, W>,
    reader: &NumberReader<R>,
    e: &QueryExpr,
    span: Span,
    rows: Vec<Rows>,
) -> (r: Option<Vec<RangePoints>>)
    requires
        ar.wf(),
        reader.wf(),
        span.step_us > 0,
    ensures
        are_series(r, range_value(*ar, *reader, e, span, rows@).0),
{
    let mut stack = stacked(rows);
    range_points(ar, reader, e, span, &mut stack)
}

// ---------- what was fetched suffices ----------

/// Whether each of the rows is of its statement's columns.
pub open spec fn rows_of_statements(
    rows: Seq<Rows>,
    statements: Seq<(Seq<char>, Columns)>,
) -> bool {
    &&& rows.len() == statements.len()
    &&& forall|i: int|
        0 <= i < rows.len() ==> of_columns(#[trigger] rows[i], statements[i].1)
}

proof fn lemma_rows_split(
    rows: Seq<Rows>,
    a: Seq<(Seq<char>, Columns)>,
    b: Seq<(Seq<char>, Columns)>,
)
    requires
        rows_of_statements(rows, a + b),
    ensures
        rows_of_statements(rows.take(a.len() as int), a),
        rows_of_statements(rows.skip(a.len() as int), b),
        rows == rows.take(a.len() as int) + rows.skip(a.len() as int),
{
    let n = a.len() as int;
    assert(rows =~= rows.take(n) + rows.skip(n));
    assert forall|i: int| 0 <= i < n implies of_columns(#[trigger] rows.take(n)[i], a[i].1) by {
        assert((a + b)[i] == a[i]);
        assert(rows.take(n)[i] == rows[i]);
    }
    assert forall|i: int| 0 <= i < b.len() implies of_columns(
        #[trigger] rows.skip(n)[i],
        b[i].1,
    ) by {
        assert((a + b)[n + i] == b[i]);
        assert(rows.skip(n)[i] == rows[n + i]);
    }
}

proof fn lemma_first_row(rows: Seq<Rows>, more: Seq<Rows>)
    requires
        rows.len() == 1,
    ensures
        (rows + more).len() > 0,
        (rows + more)[0] == rows[0],
        (rows + more).skip(1) == more,
{
    assert((rows + more).skip(1) =~= more);
}

proof fn lemma_key_count(modifier: Option<&Grouping>)
    ensures
        group_keys(modifier).len() as usize == group_keys(modifier).len(),
{
    if let Some(Grouping::Include(l)) = modifier {
        assert(l.len() == l@.len());
    }
}

/// The rows of the statements that an instant query fetches are the ones that its
/// evaluation needs: it uses them all, no others, and gives points.
#[verifier::spinoff_prover]
#[verifier::rlimit(30)]
pub proof fn law_instant_rows_suffice<
    C: Fn(BinOp, u64, u64) -> u64,
    W: Fn(i128) -> u64,
    R: Fn(&str) -> Option<u64>,
    L: Fn(u64) -> String,
>(
    ar: Arithmetic<C, W>,
    reader: NumberReader<R>,
    w: NumberWriter<L>,
    e: &QueryExpr,
    time_us: i64,
    rows: Seq<Rows>,
    more: Seq<Rows>,
)
    requires
        rows_of_statements(rows, instant_statements(w, e, time_us)),
    ensures
        instant_value(ar, reader, e, time_us, rows + more).0 is Some,
        instant_value(ar, reader, e, time_us, rows + more).1 == more,
    decreases e,
{
    law_steps_go_inward(e);
    match step_of(e) {
        Step::AggregatePoints { inner, .. } => {
            law_instant_rows_suffice(ar, reader, w, inner, time_us, rows, more);
        },
        Step::Quantile { inner, .. } => {
            law_instant_rows_suffice(ar, reader, w, inner, time_us, rows, more);
        },
        Step::TopKPoints { inner, .. } => {
            law_instant_rows_suffice(ar, reader, w, inner, time_us, rows, more);
        },
        Step::Operate { lhs, rhs, .. } => {
            let l = match lhs {
                Operand::Scalar(_) => Seq::empty(),
                Operand::Vector(x) => instant_statements(w, x, time_us),
            };
            let r = match rhs {
                Operand::Scalar(_) => Seq::empty(),
                Operand::Vector(x) => instant_statements(w, x, time_us),
            };
            lemma_rows_split(rows, l, r);
            let first = rows.take(l.len() as int);
            let second = rows.skip(l.len() as int);
            assert(rows + more =~= first + (second + more));
            match lhs {
                Operand::Scalar(_) => {
                    assert(rows + more =~= second + more);
                },
                Operand::Vector(x) => {
                    law_instant_rows_suffice(ar, reader, w, x, time_us, first, second + more);
                },
            }
            match rhs {
                Operand::Scalar(_) => {
                    assert(second + more =~= more);
                },
                Operand::Vector(x) => {
                    law_instant_rows_suffice(ar, reader, w, x, time_us, second, more);
                },
            }
        },
        Step::Nothing => {
            assert(rows + more =~= more);
        },
        Step::TopKSql { n: 0, .. } => {
            assert(rows + more =~= more);
        },
        _ => {
            lemma_instant_step_suffices(ar, reader, w, e, time_us, rows, more);
        },
    }
}

/// A step that is fetched by a statement of its own uses that statement's rows.
proof fn lemma_instant_step_suffices<
    C: Fn(BinOp, u64, u64) -> u64,
    W: Fn(i128) -> u64,
    R: Fn(&str) -> Option<u64>,
    L: Fn(u64) -> String,
>(
    ar: Arithmetic<C, W>,
    reader: NumberReader<R>,
    w: NumberWriter<L>,
    e: &QueryExpr,
    time_us: i64,
    rows: Seq<Rows>,
    more: Seq<Rows>,
)
    requires
        rows_of_statements(rows, instant_statements(w, e, time_us)),
        match step_of(e) {
            Step::Selector(_) => true,
            Step::RangeFn { .. } => true,
            Step::AggregateSql { .. } => true,
            Step::TopKSql { n, .. } => n > 0,
            Step::ScalarSql { .. } => true,
            _ => false,
        },
    ensures
        instant_value(ar, reader, e, time_us, rows + more).0 is Some,
        instant_value(ar, reader, e, time_us, rows + more).1 == more,
{
    lemma_first_row(rows, more);
    if let Step::AggregateSql { modifier, .. } = step_of(e) {
        lemma_key_count(modifier);
    }
}

/// The rows of the statements that a range query fetches are the ones that its
/// evaluation needs: it uses them all, no others, and gives series.
#[verifier::spinoff_prover]
#[verifier::rlimit(30)]
pub proof fn law_range_rows_suffice<
    C: Fn(BinOp, u64, u64) -> u64,
    W: Fn(i128) -> u64,
    R: Fn(&str) -> Option<u64>,
    L: Fn(u64) -> String,
>(
    ar: Arithmetic<C, W>,
    reader: NumberReader<R>,
    w: NumberWriter<L>,
    e: &QueryExpr,
    span: Span,
    rows: Seq<Rows>,
    more: Seq<Rows>,
)
    requires
        rows_of_statements(rows, range_statements(w, e, span.start_us, span.end_us)),
    ensures
        range_value(ar, reader, e, span, rows + more).0 is Some,
        range_value(ar, reader, e, span, rows + more).1 == more,
    decreases e,
{
    law_steps_go_inward(e);
    match step_of(e) {
        Step::AggregatePoints { inner, .. } => {
            law_range_rows_suffice(ar, reader, w, inner, span, rows, more);
        },
        Step::Quantile { inner, .. } => {
            law_range_rows_suffice(ar, reader, w, inner, span, rows, more);
        },
        Step::TopKPoints { inner, .. } => {
            law_range_rows_suffice(ar, reader, w, inner, span, rows, more);
        },
        Step::Operate { lhs, rhs, .. } => {
            let l = match lhs {
                Operand::Scalar(_) => Seq::empty(),
                Operand::Vector(x) => range_statements(w, x, span.start_us, span.end_us),
            };
            let r = match rhs {
                Operand::Scalar(_) => Seq::empty(),
                Operand::Vector(x) => range_statements(w, x, span.start_us, span.end_us),
            };
            lemma_rows_split(rows, l, r);
            let first = rows.take(l.len() as int);
            let second = rows.skip(l.len() as int);
            assert(rows + more =~= first + (second + more));
            match lhs {
                Operand::Scalar(_) => {
                    assert(rows + more =~= second + more);
                },
                Operand::Vector(x) => {
                    law_range_rows_suffice(ar, reader, w, x, span, first, second + more);
                },
            }
            match rhs {
                Operand::Scalar(_) => {
                    assert(second + more =~= more);
                },
                Operand::Vector(x) => {
                    law_range_rows_suffice(ar, reader, w, x, span, second, more);
                },
            }
        },
        Step::Nothing => {
            assert(rows + more =~= more);
        },
        Step::TopKSql { n: 0, .. } => {
            assert(rows + more =~= more);
        },
        _ => {
            lemma_range_step_suffices(ar, reader, w, e, span, rows, more);
        },
    }
}

/// A step that is fetched by a statement of its own uses that statement's rows.
proof fn lemma_range_step_suffices<
    C: Fn(BinOp, u64, u64) -> u64,
    W: Fn(i128) -> u64,
    R: Fn(&str) -> Option<u64>,
    L: Fn(u64) -> String,
>(
    ar: Arithmetic<C, W>,
    reader: NumberReader<R>,
    w: NumberWriter<L>,
    e: &QueryExpr,
    span: Span,
    rows: Seq<Rows>,
    more: Seq<Rows>,
)
    requires
        rows_of_statements(rows, range_statements(w, e, span.start_us, span.end_us)),
        match step_of(e) {
            Step::Selector(_) => true,
            Step::RangeFn { .. } => true,
            Step::AggregateSql { .. } => true,
            Step::TopKSql { n, .. } => n > 0,
            Step::ScalarSql { .. } => true,
            _ => false,
        },
    ensures
        range_value(ar, reader, e, span, rows + more).0 is Some,
        range_value(ar, reader, e, span, rows + more).1 == more,
{
    lemma_first_row(rows, more);
    if let Step::AggregateSql { modifier, .. } = step_of(e) {
        lemma_key_count(modifier);
    }
}

} // verus!
