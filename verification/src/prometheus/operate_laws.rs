//! What binary operators do to vectors.
//!
//! Points and series of the left side are treated one by one, each by itself, so it
//! is enough to say what becomes of one.

use vstd::prelude::*;
use crate::double::{equal_bits, less_bits, ONE, ZERO};
use crate::labels::Pairs;
use crate::prometheus::numbers::Arithmetic;
use crate::prometheus::operate::{
    matched_one, matched_points, matched_series, matched_values, partner, partner_series,
    scalar_points, scalar_series, scalar_values,
};
use crate::prometheus::plan::BinOp;
use crate::prometheus::rows::{PointView, RangeView};
use crate::prometheus::series::with_points;
use crate::prometheus::topk::value_at;

verus! {

/// Whether an operator is one of the six comparisons.
pub open spec fn is_comparing(op: BinOp) -> bool {
    match op {
        BinOp::Add | BinOp::Sub | BinOp::Mul | BinOp::Div | BinOp::Mod | BinOp::Pow => false,
        BinOp::Eq | BinOp::Ne | BinOp::Lt | BinOp::Le | BinOp::Gt | BinOp::Ge => true,
    }
}

/// Whether a comparison of `a` with `b` holds. Only `!=` holds of a NaN.
pub open spec fn holds(op: BinOp, a: u64, b: u64) -> bool {
    match op {
        BinOp::Eq => equal_bits(a, b),
        BinOp::Ne => !equal_bits(a, b),
        BinOp::Lt => less_bits(a, b),
        BinOp::Le => less_bits(a, b) || equal_bits(a, b),
        BinOp::Gt => less_bits(b, a),
        BinOp::Ge => less_bits(b, a) || equal_bits(a, b),
        _ => false,
    }
}

/// Whether an operator between `a` on the left and `b` on the right makes `v` of a
/// point whose value is `kept`: a comparison without `bool` leaves the value of a
/// point of which it holds; one with `bool` makes 1 or 0; arithmetic makes its
/// result.
pub open spec fn makes<C: Fn(BinOp, u64, u64) -> u64, W: Fn(i128) -> u64>(
    ar: Arithmetic<C, W>,
    op: BinOp,
    return_bool: bool,
    a: u64,
    b: u64,
    kept: u64,
    v: u64,
) -> bool {
    if !is_comparing(op) {
        v == ar.result(op, a, b)
    } else if return_bool {
        v == if holds(op, a, b) {
            ONE
        } else {
            ZERO
        }
    } else {
        holds(op, a, b) && v == kept
    }
}

/// The name that a point has afterwards: its own where it is only filtered, else
/// none.
pub open spec fn named_after(op: BinOp, return_bool: bool, name: Seq<char>) -> Seq<char> {
    if is_comparing(op) && !return_bool {
        name
    } else {
        Seq::empty()
    }
}

/// Whether an operator between a scalar and a value makes `v` of the value.
pub open spec fn makes_with<C: Fn(BinOp, u64, u64) -> u64, W: Fn(i128) -> u64>(
    ar: Arithmetic<C, W>,
    op: BinOp,
    return_bool: bool,
    scalar: u64,
    scalar_on_left: bool,
    value: u64,
    v: u64,
) -> bool {
    if scalar_on_left {
        makes(ar, op, return_bool, scalar, value, value, v)
    } else {
        makes(ar, op, return_bool, value, scalar, value, v)
    }
}

/// Whether a point is the last of some that has the labels.
pub open spec fn last_with(points: Seq<PointView>, labels: Pairs, p: PointView) -> bool {
    p.labels == labels && exists|k: int|
        0 <= k < points.len() && #[trigger] points[k] == p && (forall|j: int|
            k < j < points.len() ==> (#[trigger] points[j]).labels != labels)
}

/// Whether a series is the last of some that has the labels.
pub open spec fn last_series_with(series: Seq<RangeView>, labels: Pairs, s: RangeView) -> bool {
    s.labels == labels && exists|k: int|
        0 <= k < series.len() && #[trigger] series[k] == s && (forall|j: int|
            k < j < series.len() ==> (#[trigger] series[j]).labels != labels)
}

/// Whether a value is the last that points have at a time.
pub open spec fn last_at(points: Seq<(i64, u64)>, ts: i64, v: u64) -> bool {
    exists|k: int|
        0 <= k < points.len() && #[trigger] points[k] == (ts, v) && (forall|j: int|
            k < j < points.len() ==> (#[trigger] points[j]).0 != ts)
}

proof fn lemma_partner(points: Seq<PointView>, labels: Pairs, p: PointView)
    ensures
        partner(points, labels) == Some(p) <==> last_with(points, labels, p),
    decreases points.len(),
{
    if points.len() > 0 {
        let rest = points.drop_last();
        lemma_partner(rest, labels, p);
        let n = points.len() - 1;
        assert(points[n] == points.last());
        if points.last().labels != labels {
            if last_with(rest, labels, p) {
                let k = choose|k: int|
                    0 <= k < rest.len() && #[trigger] rest[k] == p && (forall|j: int|
                        k < j < rest.len() ==> (#[trigger] rest[j]).labels != labels);
                assert(points[k] == p);
                assert forall|j: int| k < j < points.len() implies (#[trigger] points[j]).labels
                    != labels by {
                    if j < n {
                        assert(rest[j] == points[j]);
                    }
                }
            }
            if last_with(points, labels, p) {
                let k = choose|k: int|
                    0 <= k < points.len() && #[trigger] points[k] == p && (forall|j: int|
                        k < j < points.len() ==> (#[trigger] points[j]).labels != labels);
                assert(rest[k] == p);
                assert forall|j: int| k < j < rest.len() implies (#[trigger] rest[j]).labels
                    != labels by {
                    assert(rest[j] == points[j]);
                }
            }
        }
    }
}

proof fn lemma_partner_series(series: Seq<RangeView>, labels: Pairs, s: RangeView)
    ensures
        partner_series(series, labels) == Some(s) <==> last_series_with(series, labels, s),
    decreases series.len(),
{
    if series.len() > 0 {
        let rest = series.drop_last();
        lemma_partner_series(rest, labels, s);
        let n = series.len() - 1;
        assert(series[n] == series.last());
        if series.last().labels != labels {
            if last_series_with(rest, labels, s) {
                let k = choose|k: int|
                    0 <= k < rest.len() && #[trigger] rest[k] == s && (forall|j: int|
                        k < j < rest.len() ==> (#[trigger] rest[j]).labels != labels);
                assert(series[k] == s);
                assert forall|j: int| k < j < series.len() implies (#[trigger] series[j]).labels
                    != labels by {
                    if j < n {
                        assert(rest[j] == series[j]);
                    }
                }
            }
            if last_series_with(series, labels, s) {
                let k = choose|k: int|
                    0 <= k < series.len() && #[trigger] series[k] == s && (forall|j: int|
                        k < j < series.len() ==> (#[trigger] series[j]).labels != labels);
                assert(rest[k] == s);
                assert forall|j: int| k < j < rest.len() implies (#[trigger] rest[j]).labels
                    != labels by {
                    assert(rest[j] == series[j]);
                }
            }
        }
    }
}

proof fn lemma_last_at(points: Seq<(i64, u64)>, ts: i64, v: u64)
    ensures
        value_at(points, ts) == Some(v) <==> last_at(points, ts, v),
    decreases points.len(),
{
    if points.len() > 0 {
        let rest = points.drop_last();
        lemma_last_at(rest, ts, v);
        let n = points.len() - 1;
        assert(points[n] == points.last());
        if points.last().0 != ts {
            if last_at(rest, ts, v) {
                let k = choose|k: int|
                    0 <= k < rest.len() && #[trigger] rest[k] == (ts, v) && (forall|j: int|
                        k < j < rest.len() ==> (#[trigger] rest[j]).0 != ts);
                assert(points[k] == (ts, v));
                assert forall|j: int| k < j < points.len() implies (#[trigger] points[j]).0
                    != ts by {
                    if j < n {
                        assert(rest[j] == points[j]);
                    }
                }
            }
            if last_at(points, ts, v) {
                let k = choose|k: int|
                    0 <= k < points.len() && #[trigger] points[k] == (ts, v) && (forall|j: int|
                        k < j < points.len() ==> (#[trigger] points[j]).0 != ts);
                assert(rest[k] == (ts, v));
                assert forall|j: int| k < j < rest.len() implies (#[trigger] rest[j]).0 != ts by {
                    assert(rest[j] == points[j]);
                }
            }
        }
    }
}

// ---------- a scalar and points ----------

/// A scalar is applied to each point by itself, in order.
pub proof fn law_scalars_meet_points_one_by_one<C: Fn(BinOp, u64, u64) -> u64, W: Fn(i128) -> u64>(
    ar: Arithmetic<C, W>,
    scalar: u64,
    a: Seq<PointView>,
    b: Seq<PointView>,
    op: BinOp,
    return_bool: bool,
    scalar_on_left: bool,
)
    ensures
        scalar_points(ar, scalar, a + b, op, return_bool, scalar_on_left) == scalar_points(
            ar,
            scalar,
            a,
            op,
            return_bool,
            scalar_on_left,
        ) + scalar_points(ar, scalar, b, op, return_bool, scalar_on_left),
    decreases b.len(),
{
    if b.len() == 0 {
        assert(a + b =~= a);
        assert(scalar_points(ar, scalar, a + b, op, return_bool, scalar_on_left) =~= scalar_points(
            ar,
            scalar,
            a,
            op,
            return_bool,
            scalar_on_left,
        ) + scalar_points(ar, scalar, b, op, return_bool, scalar_on_left));
    } else {
        law_scalars_meet_points_one_by_one(
            ar,
            scalar,
            a,
            b.drop_last(),
            op,
            return_bool,
            scalar_on_left,
        );
        assert((a + b).drop_last() =~= a + b.drop_last());
        assert((a + b).last() == b.last());
        assert(scalar_points(ar, scalar, a + b, op, return_bool, scalar_on_left) =~= scalar_points(
            ar,
            scalar,
            a,
            op,
            return_bool,
            scalar_on_left,
        ) + scalar_points(ar, scalar, b, op, return_bool, scalar_on_left));
    }
}

/// What a scalar makes of one point: a point with its labels and its instant, with
/// the value that the operator makes; none exactly where a filtering comparison
/// does not hold. The scalar stands on its own side.
pub proof fn law_a_scalar_meets_a_point<C: Fn(BinOp, u64, u64) -> u64, W: Fn(i128) -> u64>(
    ar: Arithmetic<C, W>,
    scalar: u64,
    p: PointView,
    op: BinOp,
    return_bool: bool,
    scalar_on_left: bool,
)
    ensures
        ({
            let out = scalar_points(ar, scalar, seq![p], op, return_bool, scalar_on_left);
            &&& out.len() <= 1
            &&& out.len() == 1 ==> {
                &&& out[0].metric_name == named_after(op, return_bool, p.metric_name)
                &&& out[0].labels == p.labels
                &&& out[0].ts_us == p.ts_us
                &&& makes_with(ar, op, return_bool, scalar, scalar_on_left, p.value, out[0].value)
            }
            &&& out.len() == 0 ==> is_comparing(op) && !return_bool && !if scalar_on_left {
                holds(op, scalar, p.value)
            } else {
                holds(op, p.value, scalar)
            }
        }),
{
    reveal_with_fuel(scalar_points, 2);
    assert(seq![p].drop_last() =~= Seq::empty());
}

// ---------- a scalar and series ----------

/// Of lists of series one after another, those with points are left one after
/// another.
pub proof fn lemma_with_points_join(a: Seq<RangeView>, b: Seq<RangeView>)
    ensures
        with_points(a + b) == with_points(a) + with_points(b),
    decreases b.len(),
{
    if b.len() == 0 {
        assert(a + b =~= a);
        assert(with_points(a + b) =~= with_points(a) + with_points(b));
    } else {
        lemma_with_points_join(a, b.drop_last());
        assert((a + b).drop_last() =~= a + b.drop_last());
        assert((a + b).last() == b.last());
        assert(with_points(a + b) =~= with_points(a) + with_points(b));
    }
}

/// Whether points have ascending times, none twice.
pub open spec fn ascending(points: Seq<(i64, u64)>) -> bool {
    forall|i: int, j: int|
        0 <= i < j < points.len() ==> (#[trigger] points[i]).0 < (#[trigger] points[j]).0
}

proof fn lemma_scalar_values<C: Fn(BinOp, u64, u64) -> u64, W: Fn(i128) -> u64>(
    ar: Arithmetic<C, W>,
    scalar: u64,
    points: Seq<(i64, u64)>,
    op: BinOp,
    return_bool: bool,
    scalar_on_left: bool,
)
    ensures
        ({
            let out = scalar_values(ar, scalar, points, op, return_bool, scalar_on_left);
            &&& forall|ts: i64, v: u64|
                (#[trigger] out.contains((ts, v)) <==> scalar_source(
                    ar,
                    scalar,
                    points,
                    op,
                    return_bool,
                    scalar_on_left,
                    ts,
                    v,
                ))
            &&& ascending(points) ==> ascending(out)
        }),
    decreases points.len(),
{
    let out = scalar_values(ar, scalar, points, op, return_bool, scalar_on_left);
    if points.len() > 0 {
        let rest = points.drop_last();
        let before = scalar_values(ar, scalar, rest, op, return_bool, scalar_on_left);
        lemma_scalar_values(ar, scalar, rest, op, return_bool, scalar_on_left);
        let n = points.len() - 1;
        assert(points[n] == points.last());
        assert forall|ts: i64, v: u64|
            (#[trigger] out.contains((ts, v)) <==> scalar_source(
                ar,
                scalar,
                points,
                op,
                return_bool,
                scalar_on_left,
                ts,
                v,
            )) by {
            if out.contains((ts, v)) {
                let w = choose|w: int| 0 <= w < out.len() && out[w] == (ts, v);
                if w < before.len() {
                    assert(before[w] == (ts, v));
                    assert(before.contains((ts, v)));
                    let k = choose|k: int|
                        0 <= k < rest.len() && (#[trigger] rest[k]).0 == ts && makes_with(
                            ar,
                            op,
                            return_bool,
                            scalar,
                            scalar_on_left,
                            rest[k].1,
                            v,
                        );
                    assert(points[k] == rest[k]);
                }
            }
            if scalar_source(ar, scalar, points, op, return_bool, scalar_on_left, ts, v) {
                let k = choose|k: int|
                    0 <= k < points.len() && (#[trigger] points[k]).0 == ts && makes_with(
                        ar,
                        op,
                        return_bool,
                        scalar,
                        scalar_on_left,
                        points[k].1,
                        v,
                    );
                if k < n {
                    assert(rest[k] == points[k]);
                    assert(before.contains((ts, v)));
                    let w = choose|w: int| 0 <= w < before.len() && before[w] == (ts, v);
                    assert(out[w] == (ts, v));
                } else {
                    assert(out[out.len() - 1] == (ts, v));
                }
            }
        }
        if ascending(points) {
            assert forall|i: int, j: int| 0 <= i < j < rest.len() implies (#[trigger] rest[i]).0 < (
            #[trigger] rest[j]).0 by {
                assert(points[i].0 < points[j].0);
            }
            assert forall|i: int, j: int| 0 <= i < j < out.len() implies (#[trigger] out[i]).0 < (
            #[trigger] out[j]).0 by {
                if j < before.len() {
                    assert(before[i].0 < before[j].0);
                } else {
                    assert(out[i] == before[i]);
                    assert(before.contains((out[i].0, out[i].1)));
                    let k = choose|k: int|
                        0 <= k < rest.len() && (#[trigger] rest[k]).0 == out[i].0 && makes_with(
                            ar,
                            op,
                            return_bool,
                            scalar,
                            scalar_on_left,
                            rest[k].1,
                            out[i].1,
                        );
                    assert(points[k].0 < points[n].0);
                }
            }
        }
    }
}

/// Whether a point of a series is one that an operator makes `v` of at a time.
pub open spec fn scalar_source<C: Fn(BinOp, u64, u64) -> u64, W: Fn(i128) -> u64>(
    ar: Arithmetic<C, W>,
    scalar: u64,
    points: Seq<(i64, u64)>,
    op: BinOp,
    return_bool: bool,
    scalar_on_left: bool,
    ts: i64,
    v: u64,
) -> bool {
    exists|k: int|
        0 <= k < points.len() && (#[trigger] points[k]).0 == ts && makes_with(
            ar,
            op,
            return_bool,
            scalar,
            scalar_on_left,
            points[k].1,
            v,
        )
}

/// A scalar is applied to each series by itself, in order.
pub proof fn law_scalars_meet_series_one_by_one<C: Fn(BinOp, u64, u64) -> u64, W: Fn(i128) -> u64>(
    ar: Arithmetic<C, W>,
    scalar: u64,
    a: Seq<RangeView>,
    b: Seq<RangeView>,
    op: BinOp,
    return_bool: bool,
    scalar_on_left: bool,
)
    ensures
        scalar_series(ar, scalar, a + b, op, return_bool, scalar_on_left) == scalar_series(
            ar,
            scalar,
            a,
            op,
            return_bool,
            scalar_on_left,
        ) + scalar_series(ar, scalar, b, op, return_bool, scalar_on_left),
{
    let f = |s: RangeView|
        RangeView {
            metric_name: crate::prometheus::operate::name_after(s.metric_name, op, return_bool),
            labels: s.labels,
            points: scalar_values(ar, scalar, s.points, op, return_bool, scalar_on_left),
        };
    assert((a + b).map_values(f) =~= a.map_values(f) + b.map_values(f));
    lemma_with_points_join(a.map_values(f), b.map_values(f));
}

/// What a scalar makes of one series: a series with its labels that has, at each
/// time of the series, the value that the operator makes there; a filtering
/// comparison leaves just the points of which it holds. No series is left exactly
/// where no point is.
pub proof fn law_a_scalar_meets_a_series<C: Fn(BinOp, u64, u64) -> u64, W: Fn(i128) -> u64>(
    ar: Arithmetic<C, W>,
    scalar: u64,
    s: RangeView,
    op: BinOp,
    return_bool: bool,
    scalar_on_left: bool,
)
    ensures
        is_made_of(
            scalar_series(ar, scalar, seq![s], op, return_bool, scalar_on_left),
            s,
            op,
            return_bool,
            |ts: i64, v: u64|
                scalar_source(ar, scalar, s.points, op, return_bool, scalar_on_left, ts, v),
        ),
{
    let f = |s: RangeView|
        RangeView {
            metric_name: crate::prometheus::operate::name_after(s.metric_name, op, return_bool),
            labels: s.labels,
            points: scalar_values(ar, scalar, s.points, op, return_bool, scalar_on_left),
        };
    let all = seq![s].map_values(f);
    reveal_with_fuel(with_points, 2);
    assert(all.drop_last() =~= Seq::empty());
    lemma_scalar_values(ar, scalar, s.points, op, return_bool, scalar_on_left);
    let points = f(s).points;
    let made = |ts: i64, v: u64|
        scalar_source(ar, scalar, s.points, op, return_bool, scalar_on_left, ts, v);
    assert(all.last().points == points);
    lemma_is_made(with_points(all), s, op, return_bool, made, f(s));
}

proof fn lemma_is_made(
    out: Seq<RangeView>,
    s: RangeView,
    op: BinOp,
    return_bool: bool,
    made: spec_fn(i64, u64) -> bool,
    whole: RangeView,
)
    requires
        out == if whole.points.len() > 0 {
            seq![whole]
        } else {
            Seq::empty()
        },
        whole.metric_name == named_after(op, return_bool, s.metric_name),
        whole.labels == s.labels,
        forall|ts: i64, v: u64| #[trigger] whole.points.contains((ts, v)) <==> made(ts, v),
        ascending(s.points) ==> ascending(whole.points),
    ensures
        is_made_of(out, s, op, return_bool, made),
{
    if whole.points.len() == 0 {
        assert forall|ts: i64, v: u64| !#[trigger] made(ts, v) by {
            assert(!whole.points.contains((ts, v)));
        }
    }
}

/// Whether series are what an operator leaves of one: one with its labels and just
/// the points that `made` tells, in time order where the series is; or none, where
/// no point is made.
pub open spec fn is_made_of(
    out: Seq<RangeView>,
    s: RangeView,
    op: BinOp,
    return_bool: bool,
    made: spec_fn(i64, u64) -> bool,
) -> bool {
    &&& out.len() <= 1
    &&& out.len() == 1 ==> {
        &&& out[0].metric_name == named_after(op, return_bool, s.metric_name)
        &&& out[0].labels == s.labels
        &&& out[0].points.len() > 0
        &&& forall|ts: i64, v: u64| #[trigger] out[0].points.contains((ts, v)) <==> made(ts, v)
        &&& ascending(s.points) ==> ascending(out[0].points)
    }
    &&& out.len() == 0 ==> forall|ts: i64, v: u64| !#[trigger] made(ts, v)
}

// ---------- two vectors ----------

/// The points of the left side are matched one by one, in order.
pub proof fn law_points_are_matched_one_by_one<C: Fn(BinOp, u64, u64) -> u64, W: Fn(i128) -> u64>(
    ar: Arithmetic<C, W>,
    a: Seq<PointView>,
    b: Seq<PointView>,
    rhs: Seq<PointView>,
    op: BinOp,
    return_bool: bool,
)
    ensures
        matched_points(ar, a + b, rhs, op, return_bool) == matched_points(
            ar,
            a,
            rhs,
            op,
            return_bool,
        ) + matched_points(ar, b, rhs, op, return_bool),
    decreases b.len(),
{
    if b.len() == 0 {
        assert(a + b =~= a);
        assert(matched_points(ar, a + b, rhs, op, return_bool) =~= matched_points(
            ar,
            a,
            rhs,
            op,
            return_bool,
        ) + matched_points(ar, b, rhs, op, return_bool));
    } else {
        law_points_are_matched_one_by_one(ar, a, b.drop_last(), rhs, op, return_bool);
        assert((a + b).drop_last() =~= a + b.drop_last());
        assert((a + b).last() == b.last());
        assert(matched_points(ar, a + b, rhs, op, return_bool) =~= matched_points(
            ar,
            a,
            rhs,
            op,
            return_bool,
        ) + matched_points(ar, b, rhs, op, return_bool));
    }
}

/// What becomes of a point of the left side: where the right side has a point with
/// the same labels (the last one counts), a point with its labels and its instant
/// and the value that the operator makes of left and right. A filtering comparison
/// leaves the left point as it is, or nothing.
pub proof fn law_a_point_is_matched<C: Fn(BinOp, u64, u64) -> u64, W: Fn(i128) -> u64>(
    ar: Arithmetic<C, W>,
    l: PointView,
    rhs: Seq<PointView>,
    op: BinOp,
    return_bool: bool,
)
    ensures
        ({
            let out = matched_points(ar, seq![l], rhs, op, return_bool);
            &&& out.len() <= 1
            &&& out.len() == 1 ==> {
                &&& out[0].metric_name == named_after(op, return_bool, l.metric_name)
                &&& out[0].labels == l.labels
                &&& out[0].ts_us == l.ts_us
                &&& exists|r: PointView| #[trigger]
                    last_with(rhs, l.labels, r) && makes(
                        ar,
                        op,
                        return_bool,
                        l.value,
                        r.value,
                        l.value,
                        out[0].value,
                    )
            }
            &&& out.len() == 0 ==> forall|r: PointView|
                (#[trigger] last_with(rhs, l.labels, r)) ==> is_comparing(op) && !return_bool
                    && !holds(op, l.value, r.value)
        }),
{
    reveal_with_fuel(matched_points, 2);
    assert(seq![l].drop_last() =~= Seq::empty());
    if partner(rhs, l.labels) is Some {
        lemma_partner(rhs, l.labels, partner(rhs, l.labels)->0);
    }
    let out = matched_points(ar, seq![l], rhs, op, return_bool);
    if out.len() == 0 {
        assert forall|r: PointView| (#[trigger] last_with(rhs, l.labels, r)) implies is_comparing(op)
            && !return_bool && !holds(op, l.value, r.value) by {
            lemma_partner(rhs, l.labels, r);
        }
    }
}

/// Whether two series make `v` at a time: the left one has a point there, the right
/// one too (the last one counts), and the operator makes `v` of the two.
pub open spec fn matched_source<C: Fn(BinOp, u64, u64) -> u64, W: Fn(i128) -> u64>(
    ar: Arithmetic<C, W>,
    lhs: Seq<(i64, u64)>,
    rhs: Seq<(i64, u64)>,
    op: BinOp,
    return_bool: bool,
    ts: i64,
    v: u64,
) -> bool {
    exists|l: u64, r: u64|
        lhs.contains((ts, l)) && last_at(rhs, ts, r) && #[trigger] makes(
            ar,
            op,
            return_bool,
            l,
            r,
            l,
            v,
        )
}

proof fn lemma_matched_values<C: Fn(BinOp, u64, u64) -> u64, W: Fn(i128) -> u64>(
    ar: Arithmetic<C, W>,
    lhs: Seq<(i64, u64)>,
    rhs: Seq<(i64, u64)>,
    op: BinOp,
    return_bool: bool,
)
    ensures
        ({
            let out = matched_values(ar, lhs, rhs, op, return_bool);
            &&& forall|ts: i64, v: u64|
                (#[trigger] out.contains((ts, v)) <==> matched_source(
                    ar,
                    lhs,
                    rhs,
                    op,
                    return_bool,
                    ts,
                    v,
                ))
            &&& ascending(lhs) ==> ascending(out)
        }),
    decreases lhs.len(),
{
    let out = matched_values(ar, lhs, rhs, op, return_bool);
    if lhs.len() > 0 {
        let rest = lhs.drop_last();
        let before = matched_values(ar, rest, rhs, op, return_bool);
        lemma_matched_values(ar, rest, rhs, op, return_bool);
        let n = lhs.len() - 1;
        let (t, lv) = lhs.last();
        assert(lhs[n] == lhs.last());
        assert(lhs.contains((t, lv)));
        assert forall|ts: i64, v: u64|
            (#[trigger] out.contains((ts, v)) <==> matched_source(
                ar,
                lhs,
                rhs,
                op,
                return_bool,
                ts,
                v,
            )) by {
            if out.contains((ts, v)) {
                let w = choose|w: int| 0 <= w < out.len() && out[w] == (ts, v);
                if w < before.len() {
                    assert(before[w] == (ts, v));
                    assert(before.contains((ts, v)));
                    let (l, r) = choose|l: u64, r: u64|
                        rest.contains((ts, l)) && last_at(rhs, ts, r) && #[trigger] makes(
                            ar,
                            op,
                            return_bool,
                            l,
                            r,
                            l,
                            v,
                        );
                    let k = choose|k: int| 0 <= k < rest.len() && rest[k] == (ts, l);
                    assert(lhs[k] == (ts, l));
                } else {
                    assert(ts == t);
                    let r = value_at(rhs, t)->0;
                    lemma_last_at(rhs, t, r);
                    assert(makes(ar, op, return_bool, lv, r, lv, v));
                }
            }
            if matched_source(ar, lhs, rhs, op, return_bool, ts, v) {
                let (l, r) = choose|l: u64, r: u64|
                    lhs.contains((ts, l)) && last_at(rhs, ts, r) && #[trigger] makes(
                        ar,
                        op,
                        return_bool,
                        l,
                        r,
                        l,
                        v,
                    );
                let k = choose|k: int| 0 <= k < lhs.len() && lhs[k] == (ts, l);
                lemma_last_at(rhs, ts, r);
                if k < n {
                    assert(rest[k] == (ts, l));
                    assert(before.contains((ts, v)));
                    let w = choose|w: int| 0 <= w < before.len() && before[w] == (ts, v);
                    assert(out[w] == (ts, v));
                } else {
                    assert(out[out.len() - 1] == (ts, v));
                }
            }
        }
        if ascending(lhs) {
            assert forall|i: int, j: int| 0 <= i < j < rest.len() implies (#[trigger] rest[i]).0 < (
            #[trigger] rest[j]).0 by {
                assert(lhs[i].0 < lhs[j].0);
            }
            assert forall|i: int, j: int| 0 <= i < j < out.len() implies (#[trigger] out[i]).0 < (
            #[trigger] out[j]).0 by {
                if j < before.len() {
                    assert(before[i].0 < before[j].0);
                } else {
                    let (ts, v) = out[i];
                    assert(out[i] == before[i]);
                    assert(before.contains((ts, v)));
                    let (l, r) = choose|l: u64, r: u64|
                        rest.contains((ts, l)) && last_at(rhs, ts, r) && #[trigger] makes(
                            ar,
                            op,
                            return_bool,
                            l,
                            r,
                            l,
                            v,
                        );
                    let k = choose|k: int| 0 <= k < rest.len() && rest[k] == (ts, l);
                    assert(lhs[k] == (ts, l));
                    assert(lhs[k].0 < lhs[n].0);
                }
            }
        }
    }
}

/// The series of the left side are matched one by one, in order.
pub proof fn law_series_are_matched_one_by_one<C: Fn(BinOp, u64, u64) -> u64, W: Fn(i128) -> u64>(
    ar: Arithmetic<C, W>,
    a: Seq<RangeView>,
    b: Seq<RangeView>,
    rhs: Seq<RangeView>,
    op: BinOp,
    return_bool: bool,
)
    ensures
        matched_series(ar, a + b, rhs, op, return_bool) == matched_series(
            ar,
            a,
            rhs,
            op,
            return_bool,
        ) + matched_series(ar, b, rhs, op, return_bool),
{
    let f = |l: RangeView| matched_one(ar, l, rhs, op, return_bool);
    assert((a + b).map_values(f) =~= a.map_values(f) + b.map_values(f));
    lemma_with_points_join(a.map_values(f), b.map_values(f));
}

/// Whether a series of the left side makes `v` at a time, together with the series
/// of the right side that has the same labels (the last one counts).
pub open spec fn series_source<C: Fn(BinOp, u64, u64) -> u64, W: Fn(i128) -> u64>(
    ar: Arithmetic<C, W>,
    l: RangeView,
    rhs: Seq<RangeView>,
    op: BinOp,
    return_bool: bool,
    ts: i64,
    v: u64,
) -> bool {
    exists|r: RangeView| #[trigger]
        last_series_with(rhs, l.labels, r) && matched_source(
            ar,
            l.points,
            r.points,
            op,
            return_bool,
            ts,
            v,
        )
}

/// What becomes of a series of the left side: a series with its labels that has,
/// at each time at which both sides have a point, the value that the operator makes
/// of left and right. A filtering comparison only drops: it leaves just those
/// points of the left series, with their values, of which it holds.
pub proof fn law_a_series_is_matched<C: Fn(BinOp, u64, u64) -> u64, W: Fn(i128) -> u64>(
    ar: Arithmetic<C, W>,
    l: RangeView,
    rhs: Seq<RangeView>,
    op: BinOp,
    return_bool: bool,
)
    ensures
        is_made_of(
            matched_series(ar, seq![l], rhs, op, return_bool),
            l,
            op,
            return_bool,
            |ts: i64, v: u64| series_source(ar, l, rhs, op, return_bool, ts, v),
        ),
{
    let f = |l: RangeView| matched_one(ar, l, rhs, op, return_bool);
    let all = seq![l].map_values(f);
    reveal_with_fuel(with_points, 2);
    assert(all.drop_last() =~= Seq::empty());
    let points = f(l).points;
    let made = |ts: i64, v: u64| series_source(ar, l, rhs, op, return_bool, ts, v);
    assert(all.last().points == points);
    assert forall|ts: i64, v: u64|
        #[trigger] points.contains((ts, v)) <==> series_source(ar, l, rhs, op, return_bool, ts, v) by {
        if partner_series(rhs, l.labels) is Some {
            let r = partner_series(rhs, l.labels)->0;
            lemma_partner_series(rhs, l.labels, r);
            lemma_matched_values(ar, l.points, r.points, op, return_bool);
        }
        if series_source(ar, l, rhs, op, return_bool, ts, v) {
            let r = choose|r: RangeView| #[trigger]
                last_series_with(rhs, l.labels, r) && matched_source(
                    ar,
                    l.points,
                    r.points,
                    op,
                    return_bool,
                    ts,
                    v,
                );
            lemma_partner_series(rhs, l.labels, r);
            lemma_matched_values(ar, l.points, r.points, op, return_bool);
        }
    }
    if partner_series(rhs, l.labels) is Some {
        lemma_matched_values(
            ar,
            l.points,
            (partner_series(rhs, l.labels)->0).points,
            op,
            return_bool,
        );
    }
    lemma_is_made(with_points(all), l, op, return_bool, made, f(l));
}

} // verus!
