//! Binary operators on points.
//!
//! A comparison without `bool` is a filter: what passes keeps its value and its
//! name. Any other operator gives a new value and strips the name. Two vectors
//! are matched by their full label sets.

use vstd::prelude::*;
use crate::labels::{Labels, Pairs};
use crate::ordered::SortKey;
use crate::prometheus::numbers::{
    apply_bin_value, bin_value, comparison_passes, passes, Arithmetic,
};
use crate::prometheus::plan::{compares, BinOp};
use crate::prometheus::rows::{
    point_views, range_views, InstantPoint, PointView, RangePoints, RangeView,
};
use crate::prometheus::series::with_points;
use crate::prometheus::topk::{find_value, value_at};

verus! {

/// Whether the operator filters.
pub open spec fn filters(op: BinOp, return_bool: bool) -> bool {
    compares(op) && !return_bool
}

/// What an operator makes of a value, which is kept where a filter passes.
pub open spec fn outcome<C: Fn(BinOp, u64, u64) -> u64, W: Fn(i128) -> u64>(
    ar: Arithmetic<C, W>,
    kept: u64,
    a: u64,
    b: u64,
    op: BinOp,
    return_bool: bool,
) -> Option<u64> {
    if !filters(op, return_bool) {
        Some(bin_value(ar, a, b, op))
    } else if passes(a, b, op) {
        Some(kept)
    } else {
        None
    }
}

/// The name that is left after an operator.
pub open spec fn name_after(name: Seq<char>, op: BinOp, return_bool: bool) -> Seq<char> {
    if filters(op, return_bool) {
        name
    } else {
        Seq::empty()
    }
}

fn operate<C: Fn(BinOp, u64, u64) -> u64, W: Fn(i128) -> u64>(
    ar: &Arithmetic<C, W>,
    kept: u64,
    a: u64,
    b: u64,
    op: BinOp,
    return_bool: bool,
) -> (r: Option<u64>)
    requires
        ar.wf(),
    ensures
        r == outcome(*ar, kept, a, b, op, return_bool),
{
    if !(op.is_comparison() && !return_bool) {
        Some(apply_bin_value(ar, a, b, op))
    } else if comparison_passes(a, b, op) {
        Some(kept)
    } else {
        None
    }
}

fn rename(name: String, op: BinOp, return_bool: bool) -> (r: String)
    ensures
        r@ == name_after(name@, op, return_bool),
{
    if op.is_comparison() && !return_bool {
        name
    } else {
        let r = String::new();
        assert(r@ =~= Seq::empty());
        r
    }
}

// ---------- a scalar and a vector ----------

/// What an operator makes of a scalar and a value, on the side each stands on.
pub open spec fn scalar_outcome<C: Fn(BinOp, u64, u64) -> u64, W: Fn(i128) -> u64>(
    ar: Arithmetic<C, W>,
    scalar: u64,
    value: u64,
    op: BinOp,
    return_bool: bool,
    scalar_on_left: bool,
) -> Option<u64> {
    if scalar_on_left {
        outcome(ar, value, scalar, value, op, return_bool)
    } else {
        outcome(ar, value, value, scalar, op, return_bool)
    }
}

/// What an operator makes of a scalar and each point.
pub open spec fn scalar_points<C: Fn(BinOp, u64, u64) -> u64, W: Fn(i128) -> u64>(
    ar: Arithmetic<C, W>,
    scalar: u64,
    points: Seq<PointView>,
    op: BinOp,
    return_bool: bool,
    scalar_on_left: bool,
) -> Seq<PointView>
    decreases points.len(),
{
    if points.len() == 0 {
        Seq::empty()
    } else {
        let rest = scalar_points(ar, scalar, points.drop_last(), op, return_bool, scalar_on_left);
        let p = points.last();
        match scalar_outcome(ar, scalar, p.value, op, return_bool, scalar_on_left) {
            Some(v) => rest.push(
                PointView {
                    metric_name: name_after(p.metric_name, op, return_bool),
                    labels: p.labels,
                    ts_us: p.ts_us,
                    value: v,
                },
            ),
            None => rest,
        }
    }
}

fn operate_scalar<C: Fn(BinOp, u64, u64) -> u64, W: Fn(i128) -> u64>(
    ar: &Arithmetic<C, W>,
    scalar: u64,
    value: u64,
    op: BinOp,
    return_bool: bool,
    scalar_on_left: bool,
) -> (r: Option<u64>)
    requires
        ar.wf(),
    ensures
        r == scalar_outcome(*ar, scalar, value, op, return_bool, scalar_on_left),
{
    if scalar_on_left {
        operate(ar, value, scalar, value, op, return_bool)
    } else {
        operate(ar, value, value, scalar, op, return_bool)
    }
}

/// Apply an operator to a scalar and each point.
pub fn apply_scalar_vector_instant<C: Fn(BinOp, u64, u64) -> u64, W: Fn(i128) -> u64>(
    ar: &Arithmetic<C, W>,
    scalar: u64,
    pts: Vec<InstantPoint>,
    op: BinOp,
    return_bool: bool,
    scalar_on_left: bool,
) -> (r: Vec<InstantPoint>)
    requires
        ar.wf(),
    ensures
        point_views(r@) == scalar_points(
            *ar,
            scalar,
            point_views(pts@),
            op,
            return_bool,
            scalar_on_left,
        ),
{
    let ghost all = point_views(pts@);
    let mut r: Vec<InstantPoint> = Vec::new();
    assert(point_views(r@) =~= scalar_points(
        *ar,
        scalar,
        all.take(0),
        op,
        return_bool,
        scalar_on_left,
    ));
    for p in it: pts
        invariant
            it.seq() == pts@,
            ar.wf(),
            all == point_views(pts@),
            point_views(r@) == scalar_points(
                *ar,
                scalar,
                all.take(it.index() as int),
                op,
                return_bool,
                scalar_on_left,
            ),
            all.take(all.len() as int) =~= all,
    {
        let ghost before = r@;
        proof {
            let t = all.take(it.index() as int + 1);
            assert(t.drop_last() =~= all.take(it.index() as int));
            assert(t.last() == p@);
        }
        if let Some(v) = operate_scalar(ar, scalar, p.value, op, return_bool, scalar_on_left) {
            let n = InstantPoint {
                metric_name: rename(p.metric_name, op, return_bool),
                labels: p.labels,
                ts_us: p.ts_us,
                value: v,
            };
            r.push(n);
            assert(point_views(r@) =~= point_views(before).push(n@));
        }
    }
    r
}

/// What an operator makes of a scalar and the values of a series.
pub open spec fn scalar_values<C: Fn(BinOp, u64, u64) -> u64, W: Fn(i128) -> u64>(
    ar: Arithmetic<C, W>,
    scalar: u64,
    points: Seq<(i64, u64)>,
    op: BinOp,
    return_bool: bool,
    scalar_on_left: bool,
) -> Seq<(i64, u64)>
    decreases points.len(),
{
    if points.len() == 0 {
        Seq::empty()
    } else {
        let rest = scalar_values(ar, scalar, points.drop_last(), op, return_bool, scalar_on_left);
        let (ts, value) = points.last();
        match scalar_outcome(ar, scalar, value, op, return_bool, scalar_on_left) {
            Some(v) => rest.push((ts, v)),
            None => rest,
        }
    }
}

/// What an operator makes of a scalar and each series; series left without
/// points go.
pub open spec fn scalar_series<C: Fn(BinOp, u64, u64) -> u64, W: Fn(i128) -> u64>(
    ar: Arithmetic<C, W>,
    scalar: u64,
    series: Seq<RangeView>,
    op: BinOp,
    return_bool: bool,
    scalar_on_left: bool,
) -> Seq<RangeView> {
    with_points(
        series.map_values(
            |s: RangeView|
                RangeView {
                    metric_name: name_after(s.metric_name, op, return_bool),
                    labels: s.labels,
                    points: scalar_values(ar, scalar, s.points, op, return_bool, scalar_on_left),
                },
        ),
    )
}

fn operate_scalar_values<C: Fn(BinOp, u64, u64) -> u64, W: Fn(i128) -> u64>(
    ar: &Arithmetic<C, W>,
    scalar: u64,
    points: &Vec<(i64, u64)>,
    op: BinOp,
    return_bool: bool,
    scalar_on_left: bool,
) -> (r: Vec<(i64, u64)>)
    requires
        ar.wf(),
    ensures
        r@ == scalar_values(*ar, scalar, points@, op, return_bool, scalar_on_left),
{
    let mut r: Vec<(i64, u64)> = Vec::new();
    let mut i: usize = 0;
    assert(r@ =~= scalar_values(*ar, scalar, points@.take(0), op, return_bool, scalar_on_left));
    while i < points.len()
        invariant
            ar.wf(),
            i <= points@.len(),
            r@ == scalar_values(
                *ar,
                scalar,
                points@.take(i as int),
                op,
                return_bool,
                scalar_on_left,
            ),
        decreases points@.len() - i,
    {
        proof {
            assert(points@.take(i as int + 1).drop_last() =~= points@.take(i as int));
        }
        let (ts, value) = points[i];
        if let Some(v) = operate_scalar(ar, scalar, value, op, return_bool, scalar_on_left) {
            r.push((ts, v));
        }
        i += 1;
    }
    assert(points@.take(i as int) =~= points@);
    r
}

/// Apply an operator to a scalar and each point of each series.
pub fn apply_scalar_vector_range<C: Fn(BinOp, u64, u64) -> u64, W: Fn(i128) -> u64>(
    ar: &Arithmetic<C, W>,
    scalar: u64,
    series: Vec<RangePoints>,
    op: BinOp,
    return_bool: bool,
    scalar_on_left: bool,
) -> (r: Vec<RangePoints>)
    requires
        ar.wf(),
    ensures
        range_views(r@) == scalar_series(
            *ar,
            scalar,
            range_views(series@),
            op,
            return_bool,
            scalar_on_left,
        ),
{
    let ghost f = |s: RangeView|
        RangeView {
            metric_name: name_after(s.metric_name, op, return_bool),
            labels: s.labels,
            points: scalar_values(*ar, scalar, s.points, op, return_bool, scalar_on_left),
        };
    let ghost all = range_views(series@).map_values(f);
    let mut r: Vec<RangePoints> = Vec::new();
    assert(range_views(r@) =~= with_points(all.take(0)));
    for s in it: series
        invariant
            it.seq() == series@,
            ar.wf(),
            f == (|s: RangeView|
                RangeView {
                    metric_name: name_after(s.metric_name, op, return_bool),
                    labels: s.labels,
                    points: scalar_values(*ar, scalar, s.points, op, return_bool, scalar_on_left),
                }),
            all == range_views(series@).map_values(f),
            range_views(r@) == with_points(all.take(it.index() as int)),
            all.take(all.len() as int) =~= all,
    {
        let ghost before = r@;
        let ghost s0 = s@;
        let points = operate_scalar_values(
            ar,
            scalar,
            &s.points,
            op,
            return_bool,
            scalar_on_left,
        );
        proof {
            let t = all.take(it.index() as int + 1);
            assert(t.drop_last() =~= all.take(it.index() as int));
            assert(t.last() == f(s0));
        }
        if points.len() > 0 {
            let n = RangePoints {
                metric_name: rename(s.metric_name, op, return_bool),
                labels: s.labels,
                points,
            };
            r.push(n);
            assert(n@ == f(s0));
            assert(range_views(r@) =~= range_views(before).push(n@));
        }
    }
    r
}

// ---------- two vectors ----------

/// The point of the other side that a point is matched with: the last one with
/// the same labels.
pub open spec fn partner(other: Seq<PointView>, labels: Pairs) -> Option<PointView>
    decreases other.len(),
{
    if other.len() == 0 {
        None
    } else if other.last().labels == labels {
        Some(other.last())
    } else {
        partner(other.drop_last(), labels)
    }
}

/// What an operator makes of the points of two vectors.
pub open spec fn matched_points<C: Fn(BinOp, u64, u64) -> u64, W: Fn(i128) -> u64>(
    ar: Arithmetic<C, W>,
    lhs: Seq<PointView>,
    rhs: Seq<PointView>,
    op: BinOp,
    return_bool: bool,
) -> Seq<PointView>
    decreases lhs.len(),
{
    if lhs.len() == 0 {
        Seq::empty()
    } else {
        let rest = matched_points(ar, lhs.drop_last(), rhs, op, return_bool);
        let l = lhs.last();
        match partner(rhs, l.labels) {
            Some(r) => match outcome(ar, l.value, l.value, r.value, op, return_bool) {
                Some(v) => rest.push(
                    PointView {
                        metric_name: name_after(l.metric_name, op, return_bool),
                        labels: l.labels,
                        ts_us: l.ts_us,
                        value: v,
                    },
                ),
                None => rest,
            },
            None => rest,
        }
    }
}

fn find_partner(other: &Vec<InstantPoint>, labels: &Labels) -> (r: Option<u64>)
    ensures
        r == match partner(point_views(other@), labels@) {
            Some(p) => Some(p.value),
            None => None,
        },
{
    let ghost all = point_views(other@);
    let mut i: usize = other.len();
    assert(all.take(i as int) =~= all);
    while i > 0
        invariant
            all == point_views(other@),
            i <= other@.len(),
            partner(all, labels@) == partner(all.take(i as int), labels@),
        decreases i,
    {
        assert(all.take(i as int).drop_last() =~= all.take(i as int - 1));
        assert(all.take(i as int).last() == other@[i as int - 1]@);
        if other[i - 1].labels.same(labels) {
            return Some(other[i - 1].value);
        }
        i -= 1;
    }
    None
}

/// Apply an operator to the points of two vectors that have the same labels.
pub fn apply_vector_vector_instant<C: Fn(BinOp, u64, u64) -> u64, W: Fn(i128) -> u64>(
    ar: &Arithmetic<C, W>,
    lhs: Vec<InstantPoint>,
    rhs: Vec<InstantPoint>,
    op: BinOp,
    return_bool: bool,
) -> (r: Vec<InstantPoint>)
    requires
        ar.wf(),
    ensures
        point_views(r@) == matched_points(
            *ar,
            point_views(lhs@),
            point_views(rhs@),
            op,
            return_bool,
        ),
{
    let ghost all = point_views(lhs@);
    let ghost other = point_views(rhs@);
    let mut r: Vec<InstantPoint> = Vec::new();
    assert(point_views(r@) =~= matched_points(*ar, all.take(0), other, op, return_bool));
    for l in it: lhs
        invariant
            it.seq() == lhs@,
            ar.wf(),
            all == point_views(lhs@),
            other == point_views(rhs@),
            point_views(r@) == matched_points(
                *ar,
                all.take(it.index() as int),
                other,
                op,
                return_bool,
            ),
            all.take(all.len() as int) =~= all,
    {
        let ghost before = r@;
        proof {
            let t = all.take(it.index() as int + 1);
            assert(t.drop_last() =~= all.take(it.index() as int));
            assert(t.last() == l@);
        }
        if let Some(rv) = find_partner(&rhs, &l.labels) {
            if let Some(v) = operate(ar, l.value, l.value, rv, op, return_bool) {
                let n = InstantPoint {
                    metric_name: rename(l.metric_name, op, return_bool),
                    labels: l.labels,
                    ts_us: l.ts_us,
                    value: v,
                };
                r.push(n);
                assert(point_views(r@) =~= point_views(before).push(n@));
            }
        }
    }
    r
}

/// The series of the other side that a series is matched with: the last one
/// with the same labels.
pub open spec fn partner_series(other: Seq<RangeView>, labels: Pairs) -> Option<RangeView>
    decreases other.len(),
{
    if other.len() == 0 {
        None
    } else if other.last().labels == labels {
        Some(other.last())
    } else {
        partner_series(other.drop_last(), labels)
    }
}

/// What an operator makes of the values that two series have at the same time.
pub open spec fn matched_values<C: Fn(BinOp, u64, u64) -> u64, W: Fn(i128) -> u64>(
    ar: Arithmetic<C, W>,
    lhs: Seq<(i64, u64)>,
    rhs: Seq<(i64, u64)>,
    op: BinOp,
    return_bool: bool,
) -> Seq<(i64, u64)>
    decreases lhs.len(),
{
    if lhs.len() == 0 {
        Seq::empty()
    } else {
        let rest = matched_values(ar, lhs.drop_last(), rhs, op, return_bool);
        let (ts, l) = lhs.last();
        match value_at(rhs, ts) {
            Some(r) => match outcome(ar, l, l, r, op, return_bool) {
                Some(v) => rest.push((ts, v)),
                None => rest,
            },
            None => rest,
        }
    }
}

/// The points that a series and its partner make; none without a partner.
pub open spec fn matched_one<C: Fn(BinOp, u64, u64) -> u64, W: Fn(i128) -> u64>(
    ar: Arithmetic<C, W>,
    l: RangeView,
    rhs: Seq<RangeView>,
    op: BinOp,
    return_bool: bool,
) -> RangeView {
    RangeView {
        metric_name: name_after(l.metric_name, op, return_bool),
        labels: l.labels,
        points: match partner_series(rhs, l.labels) {
            Some(r) => matched_values(ar, l.points, r.points, op, return_bool),
            None => Seq::empty(),
        },
    }
}

/// What an operator makes of the series of two vectors; series left without
/// points go.
pub open spec fn matched_series<C: Fn(BinOp, u64, u64) -> u64, W: Fn(i128) -> u64>(
    ar: Arithmetic<C, W>,
    lhs: Seq<RangeView>,
    rhs: Seq<RangeView>,
    op: BinOp,
    return_bool: bool,
) -> Seq<RangeView> {
    with_points(lhs.map_values(|l: RangeView| matched_one(ar, l, rhs, op, return_bool)))
}

fn find_partner_series<'a>(other: &'a Vec<RangePoints>, labels: &Labels) -> (r: Option<
    &'a RangePoints,
>)
    ensures
        match r {
            Some(s) => partner_series(range_views(other@), labels@) == Some(s@),
            None => partner_series(range_views(other@), labels@) is None,
        },
{
    let ghost all = range_views(other@);
    let mut i: usize = other.len();
    assert(all.take(i as int) =~= all);
    while i > 0
        invariant
            all == range_views(other@),
            i <= other@.len(),
            partner_series(all, labels@) == partner_series(all.take(i as int), labels@),
        decreases i,
    {
        assert(all.take(i as int).drop_last() =~= all.take(i as int - 1));
        assert(all.take(i as int).last() == other@[i as int - 1]@);
        if other[i - 1].labels.same(labels) {
            return Some(&other[i - 1]);
        }
        i -= 1;
    }
    None
}

fn match_values<C: Fn(BinOp, u64, u64) -> u64, W: Fn(i128) -> u64>(
    ar: &Arithmetic<C, W>,
    lhs: &Vec<(i64, u64)>,
    rhs: &Vec<(i64, u64)>,
    op: BinOp,
    return_bool: bool,
) -> (r: Vec<(i64, u64)>)
    requires
        ar.wf(),
    ensures
        r@ == matched_values(*ar, lhs@, rhs@, op, return_bool),
{
    let mut r: Vec<(i64, u64)> = Vec::new();
    let mut i: usize = 0;
    assert(r@ =~= matched_values(*ar, lhs@.take(0), rhs@, op, return_bool));
    while i < lhs.len()
        invariant
            ar.wf(),
            i <= lhs@.len(),
            r@ == matched_values(*ar, lhs@.take(i as int), rhs@, op, return_bool),
        decreases lhs@.len() - i,
    {
        proof {
            assert(lhs@.take(i as int + 1).drop_last() =~= lhs@.take(i as int));
        }
        let (ts, l) = lhs[i];
        if let Some(rv) = find_value(rhs, ts) {
            if let Some(v) = operate(ar, l, l, rv, op, return_bool) {
                r.push((ts, v));
            }
        }
        i += 1;
    }
    assert(lhs@.take(i as int) =~= lhs@);
    r
}

/// Apply an operator to the series of two vectors that have the same labels, at
/// the times that both have.
pub fn apply_vector_vector_range<C: Fn(BinOp, u64, u64) -> u64, W: Fn(i128) -> u64>(
    ar: &Arithmetic<C, W>,
    lhs: Vec<RangePoints>,
    rhs: Vec<RangePoints>,
    op: BinOp,
    return_bool: bool,
) -> (r: Vec<RangePoints>)
    requires
        ar.wf(),
    ensures
        range_views(r@) == matched_series(
            *ar,
            range_views(lhs@),
            range_views(rhs@),
            op,
            return_bool,
        ),
{
    let ghost other = range_views(rhs@);
    let ghost f = |l: RangeView| matched_one(*ar, l, other, op, return_bool);
    let ghost all = range_views(lhs@).map_values(f);
    let mut r: Vec<RangePoints> = Vec::new();
    assert(range_views(r@) =~= with_points(all.take(0)));
    for l in it: lhs
        invariant
            it.seq() == lhs@,
            ar.wf(),
            other == range_views(rhs@),
            f == (|l: RangeView| matched_one(*ar, l, other, op, return_bool)),
            all == range_views(lhs@).map_values(f),
            range_views(r@) == with_points(all.take(it.index() as int)),
            all.take(all.len() as int) =~= all,
    {
        let ghost before = r@;
        let ghost l0 = l@;
        proof {
            let t = all.take(it.index() as int + 1);
            assert(t.drop_last() =~= all.take(it.index() as int));
            assert(t.last() == f(l0));
        }
        if let Some(s) = find_partner_series(&rhs, &l.labels) {
            let points = match_values(ar, &l.points, &s.points, op, return_bool);
            if points.len() > 0 {
                let n = RangePoints {
                    metric_name: rename(l.metric_name, op, return_bool),
                    labels: l.labels,
                    points,
                };
                r.push(n);
                assert(n@ == f(l0));
                assert(range_views(r@) =~= range_views(before).push(n@));
            }
        }
    }
    r
}

// ---------- operands ----------

/// An evaluated operand of an instant query.
pub enum Side {
    Scalar(u64),
    Vector(Vec<InstantPoint>),
}

/// An evaluated operand of a range query.
pub enum SideR {
    Scalar(u64),
    Vector(Vec<RangePoints>),
}

/// Apply an operator to two evaluated operands. Two scalars have no series to
/// show.
pub fn operate_instant<C: Fn(BinOp, u64, u64) -> u64, W: Fn(i128) -> u64>(
    ar: &Arithmetic<C, W>,
    left: Side,
    right: Side,
    op: BinOp,
    return_bool: bool,
) -> (r: Vec<InstantPoint>)
    requires
        ar.wf(),
    ensures
        point_views(r@) == match (left, right) {
            (Side::Scalar(s), Side::Vector(p)) => scalar_points(
                *ar,
                s,
                point_views(p@),
                op,
                return_bool,
                true,
            ),
            (Side::Vector(p), Side::Scalar(s)) => scalar_points(
                *ar,
                s,
                point_views(p@),
                op,
                return_bool,
                false,
            ),
            (Side::Vector(p), Side::Vector(q)) => matched_points(
                *ar,
                point_views(p@),
                point_views(q@),
                op,
                return_bool,
            ),
            (Side::Scalar(_), Side::Scalar(_)) => Seq::empty(),
        },
{
    match (left, right) {
        (Side::Scalar(s), Side::Vector(p)) => apply_scalar_vector_instant(
            ar,
            s,
            p,
            op,
            return_bool,
            true,
        ),
        (Side::Vector(p), Side::Scalar(s)) => apply_scalar_vector_instant(
            ar,
            s,
            p,
            op,
            return_bool,
            false,
        ),
        (Side::Vector(p), Side::Vector(q)) => apply_vector_vector_instant(
            ar,
            p,
            q,
            op,
            return_bool,
        ),
        (Side::Scalar(_), Side::Scalar(_)) => {
            let r: Vec<InstantPoint> = Vec::new();
            assert(point_views(r@) =~= Seq::empty());
            r
        },
    }
}

/// Apply an operator to two evaluated operands. Two scalars have no series to
/// show.
pub fn operate_range<C: Fn(BinOp, u64, u64) -> u64, W: Fn(i128) -> u64>(
    ar: &Arithmetic<C, W>,
    left: SideR,
    right: SideR,
    op: BinOp,
    return_bool: bool,
) -> (r: Vec<RangePoints>)
    requires
        ar.wf(),
    ensures
        range_views(r@) == match (left, right) {
            (SideR::Scalar(s), SideR::Vector(p)) => scalar_series(
                *ar,
                s,
                range_views(p@),
                op,
                return_bool,
                true,
            ),
            (SideR::Vector(p), SideR::Scalar(s)) => scalar_series(
                *ar,
                s,
                range_views(p@),
                op,
                return_bool,
                false,
            ),
            (SideR::Vector(p), SideR::Vector(q)) => matched_series(
                *ar,
                range_views(p@),
                range_views(q@),
                op,
                return_bool,
            ),
            (SideR::Scalar(_), SideR::Scalar(_)) => Seq::empty(),
        },
{
    match (left, right) {
        (SideR::Scalar(s), SideR::Vector(p)) => apply_scalar_vector_range(
            ar,
            s,
            p,
            op,
            return_bool,
            true,
        ),
        (SideR::Vector(p), SideR::Scalar(s)) => apply_scalar_vector_range(
            ar,
            s,
            p,
            op,
            return_bool,
            false,
        ),
        (SideR::Vector(p), SideR::Vector(q)) => apply_vector_vector_range(
            ar,
            p,
            q,
            op,
            return_bool,
        ),
        (SideR::Scalar(_), SideR::Scalar(_)) => {
            let r: Vec<RangePoints> = Vec::new();
            assert(range_views(r@) =~= Seq::empty());
            r
        },
    }
}

/// A filtering comparison never makes a point up: what it returns was among its
/// points, value and name included.
pub proof fn law_filters_only_drop<C: Fn(BinOp, u64, u64) -> u64, W: Fn(i128) -> u64>(
    ar: Arithmetic<C, W>,
    scalar: u64,
    points: Seq<PointView>,
    op: BinOp,
    scalar_on_left: bool,
)
    requires
        compares(op),
    ensures
        forall|i: int|
            0 <= i < scalar_points(ar, scalar, points, op, false, scalar_on_left).len()
                ==> points.contains(
                #[trigger] scalar_points(ar, scalar, points, op, false, scalar_on_left)[i],
            ),
    decreases points.len(),
{
    if points.len() > 0 {
        let rest = points.drop_last();
        law_filters_only_drop(ar, scalar, rest, op, scalar_on_left);
        let r0 = scalar_points(ar, scalar, rest, op, false, scalar_on_left);
        let r = scalar_points(ar, scalar, points, op, false, scalar_on_left);
        assert forall|i: int| 0 <= i < r.len() implies points.contains(#[trigger] r[i]) by {
            if i < r0.len() {
                assert(r[i] == r0[i]);
                let w = choose|w: int| 0 <= w < rest.len() && rest[w] == r0[i];
                assert(points[w] == r[i]);
            } else {
                assert(r[i] =~= points.last());
                assert(points[points.len() - 1] == points.last());
            }
        }
    }
}

/// A comparison with `bool` drops nothing and gives 0 or 1.
pub proof fn law_bool_gives_zero_or_one<C: Fn(BinOp, u64, u64) -> u64, W: Fn(i128) -> u64>(
    ar: Arithmetic<C, W>,
    scalar: u64,
    points: Seq<PointView>,
    op: BinOp,
    scalar_on_left: bool,
)
    requires
        compares(op),
    ensures
        scalar_points(ar, scalar, points, op, true, scalar_on_left).len() == points.len(),
        forall|i: int|
            0 <= i < points.len() ==> {
                let p = #[trigger] scalar_points(ar, scalar, points, op, true, scalar_on_left)[i];
                p.labels == points[i].labels && p.metric_name.len() == 0 && (p.value
                    == crate::double::ZERO || p.value == crate::double::ONE)
            },
    decreases points.len(),
{
    if points.len() > 0 {
        let rest = points.drop_last();
        law_bool_gives_zero_or_one(ar, scalar, rest, op, scalar_on_left);
        let r0 = scalar_points(ar, scalar, rest, op, true, scalar_on_left);
        let r = scalar_points(ar, scalar, points, op, true, scalar_on_left);
        assert forall|i: int| 0 <= i < points.len() implies {
            let p = #[trigger] r[i];
            p.labels == points[i].labels && p.metric_name.len() == 0 && (p.value
                == crate::double::ZERO || p.value == crate::double::ONE)
        } by {
            if i < r0.len() {
                assert(r[i] == r0[i]);
                assert(rest[i] == points[i]);
            }
        }
    }
}

} // verus!
