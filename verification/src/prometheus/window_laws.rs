//! What window functions compute, in terms of the numbers that bits stand for, and
//! at which steps.

use vstd::arithmetic::power2::{lemma2_to64_rest, lemma_pow2_adds, lemma_pow2_pos, pow2};
use vstd::prelude::*;
use crate::double::is_finite_bits;
use crate::double_laws::{
    exponent, fraction, law_bits_compare_as_numbers, law_zero_and_one, number, signed_units, units,
};
use crate::ordered::lemma_stable_order_exists;
use crate::permutations::lemma_same_under_every_key;
use crate::prometheus::numbers::{counted, growth, seconds, window_value, Arithmetic, MILLION};
use crate::prometheus::operate_laws::{ascending, lemma_with_points_join};
use crate::prometheus::plan::{BinOp, RangeFnOp};
use crate::prometheus::quantile_laws::exact;
use crate::prometheus::rows::RangeView;
use crate::prometheus::series::{
    in_time_order, law_values_stand_at_steps, stepped, stepped_series, time_ordered, window,
    window_series, with_points,
};
use crate::reals::{lemma_div_mul, lemma_mul_at_most, lemma_mul_cancel, lemma_mul_swap};

verus! {

/// Whether the arithmetic gives the number of an integer without rounding it.
pub open spec fn exact_whole<C: Fn(BinOp, u64, u64) -> u64, W: Fn(i128) -> u64>(
    ar: Arithmetic<C, W>,
    n: int,
) -> bool {
    is_finite_bits(ar.number(n as i128)) && number(ar.number(n as i128)) == n as real
}

/// How far a counter went from one value to the next: the difference, or, after a
/// drop, all of the new value.
pub open spec fn climb(prev: u64, curr: u64) -> real {
    if number(prev) <= number(curr) {
        number(curr) - number(prev)
    } else {
        number(curr)
    }
}

/// How far a counter went over the samples, from each to the next.
pub open spec fn climbed(points: Seq<(i64, u64)>) -> real
    decreases points.len(),
{
    if points.len() < 2 {
        0real
    } else {
        climbed(points.drop_last()) + climb(points[points.len() - 2].1, points.last().1)
    }
}

/// Whether every value is finite.
pub open spec fn all_finite(points: Seq<(i64, u64)>) -> bool {
    forall|i: int| 0 <= i < points.len() ==> is_finite_bits((#[trigger] points[i]).1)
}

/// Whether the arithmetic adds up how far a counter went without rounding.
pub open spec fn adds_up<C: Fn(BinOp, u64, u64) -> u64, W: Fn(i128) -> u64>(
    ar: Arithmetic<C, W>,
    points: Seq<(i64, u64)>,
) -> bool {
    forall|k: int|
        1 <= k < points.len() ==> {
            let (prev, curr) = (points[k - 1].1, (#[trigger] points[k]).1);
            &&& number(prev) <= number(curr) ==> exact(ar, BinOp::Sub, curr, prev)
            &&& exact(ar, BinOp::Add, growth(ar, points.take(k)), counted(ar, prev, curr))
        }
}

/// What has been added up over the samples is how far the counter went.
pub proof fn law_growth_is_what_was_climbed<C: Fn(BinOp, u64, u64) -> u64, W: Fn(i128) -> u64>(
    ar: Arithmetic<C, W>,
    points: Seq<(i64, u64)>,
)
    requires
        all_finite(points),
        adds_up(ar, points),
    ensures
        is_finite_bits(growth(ar, points)),
        number(growth(ar, points)) == climbed(points),
    decreases points.len(),
{
    law_zero_and_one();
    if points.len() >= 2 {
        let n = points.len() - 1;
        let rest = points.drop_last();
        assert(rest =~= points.take(n));
        assert(points[n] == points.last());
        let (prev, curr) = (points[n - 1].1, points[n].1);
        assert(is_finite_bits(points[n - 1].1) && is_finite_bits(points[n].1));
        law_bits_compare_as_numbers(prev, curr);
        assert forall|i: int| 0 <= i < rest.len() implies is_finite_bits(
            (#[trigger] rest[i]).1,
        ) by {
            assert(rest[i] == points[i]);
        }
        assert forall|k: int| 1 <= k < rest.len() implies {
            let (p, c) = (rest[k - 1].1, (#[trigger] rest[k]).1);
            &&& number(p) <= number(c) ==> exact(ar, BinOp::Sub, c, p)
            &&& exact(ar, BinOp::Add, growth(ar, rest.take(k)), counted(ar, p, c))
        } by {
            assert(rest[k] == points[k] && rest[k - 1] == points[k - 1]);
            assert(rest.take(k) =~= points.take(k));
        }
        law_growth_is_what_was_climbed(ar, rest);
    }
}

/// A counter that never drops went from its first value to its last. One that drops
/// went up to each drop, and from zero on after it.
pub proof fn law_climbing_without_and_with_drops(points: Seq<(i64, u64)>, at: int)
    requires
        0 < at <= points.len(),
    ensures
        (forall|k: int|
            1 <= k < points.len() ==> number(points[k - 1].1) <= number((#[trigger] points[k]).1))
            ==> climbed(points) == number(points.last().1) - number(points[0].1),
        at < points.len() && number(points[at].1) < number(points[at - 1].1) ==> climbed(points)
            == climbed(points.take(at)) + number(points[at].1) + climbed(points.skip(at)),
    decreases points.len(),
{
    if points.len() == 1 {
    } else {
        let n = points.len() - 1;
        let rest = points.drop_last();
        assert(points[n] == points.last());
        if forall|k: int|
            1 <= k < points.len() ==> number(points[k - 1].1) <= number((#[trigger] points[k]).1) {
            assert forall|k: int| 1 <= k < rest.len() implies number(rest[k - 1].1) <= number(
                (#[trigger] rest[k]).1,
            ) by {
                assert(rest[k] == points[k] && rest[k - 1] == points[k - 1]);
            }
            law_climbing_without_and_with_drops(rest, 1);
            assert(number(points[n - 1].1) <= number(points[n].1));
            assert(rest.last() == points[n - 1]);
        }
        if at < points.len() && number(points[at].1) < number(points[at - 1].1) {
            let tail = points.skip(at);
            if at == n {
                assert(tail.len() == 1);
                assert(rest =~= points.take(at));
            } else {
                assert(rest[at] == points[at] && rest[at - 1] == points[at - 1]);
                law_climbing_without_and_with_drops(rest, at);
                assert(rest.take(at) =~= points.take(at));
                assert(rest.skip(at) =~= tail.drop_last());
                assert(tail[tail.len() - 2] == points[n - 1]);
                assert(tail.last() == points.last());
            }
        }
    }
}

proof fn lemma_million()
    ensures
        is_finite_bits(MILLION),
        number(MILLION) == 1_000_000real,
{
    lemma_pow2_adds(33, 1041);
    lemma_pow2_pos(1074);
    lemma2_to64_rest();
    assert(pow2(33) == 0x2_0000_0000);
    assert(exponent(MILLION) == 1042);
    assert(fraction(MILLION) == 0xE8480_0000_0000);
    let p = pow2(1041) as int;
    let q = pow2(1074) as int;
    assert(0x2_0000_0000 * p == q);
    assert(units(MILLION) == 0x1E_8480_0000_0000 * p);
    assert(units(MILLION) == 1_000_000 * q);
    let d = q as real;
    assert(signed_units(MILLION) as real == 1_000_000real * d);
    let x = signed_units(MILLION) as real / d;
    lemma_div_mul(signed_units(MILLION) as real, d);
    lemma_mul_cancel(x, 1_000_000real, d);
}

/// The seconds between two instants are their microseconds by a million.
proof fn lemma_seconds<C: Fn(BinOp, u64, u64) -> u64, W: Fn(i128) -> u64>(
    ar: Arithmetic<C, W>,
    from: i64,
    to: i64,
)
    requires
        exact_whole(ar, to - from),
        exact(ar, BinOp::Div, ar.number((to - from) as i128), MILLION),
    ensures
        is_finite_bits(seconds(ar, from, to)),
        number(seconds(ar, from, to)) * 1_000_000real == (to - from) as real,
{
    lemma_million();
    lemma_div_mul((to - from) as real, 1_000_000real);
}

/// Whether the arithmetic divides a value by the seconds between two instants
/// without rounding.
pub open spec fn divides_by_time<C: Fn(BinOp, u64, u64) -> u64, W: Fn(i128) -> u64>(
    ar: Arithmetic<C, W>,
    value: u64,
    from: i64,
    to: i64,
) -> bool {
    &&& exact_whole(ar, to - from)
    &&& exact(ar, BinOp::Div, ar.number((to - from) as i128), MILLION)
    &&& exact(ar, BinOp::Div, value, ar.result(BinOp::Div, ar.number((to - from) as i128), MILLION))
}

proof fn lemma_per_second<C: Fn(BinOp, u64, u64) -> u64, W: Fn(i128) -> u64>(
    ar: Arithmetic<C, W>,
    value: u64,
    from: i64,
    to: i64,
)
    requires
        from < to,
        divides_by_time(ar, value, from, to),
    ensures
        number(ar.result(BinOp::Div, value, seconds(ar, from, to))) * (to - from) as real == number(
            value,
        ) * 1_000_000real,
{
    lemma_seconds(ar, from, to);
    let s = number(seconds(ar, from, to));
    let g = number(value);
    let r = number(ar.result(BinOp::Div, value, seconds(ar, from, to)));
    if s <= 0real {
        lemma_mul_at_most(s, 0real, 1_000_000real);
        assert(false);
    }
    lemma_div_mul(g, s);
    assert(r * s == g);
    lemma_mul_swap(r, s, 1_000_000real);
}

/// A window function has a value of two samples and more; rate, increase and irate
/// only where time passed between the samples they compare.
pub proof fn law_windows_that_have_a_value<C: Fn(BinOp, u64, u64) -> u64, W: Fn(i128) -> u64>(
    ar: Arithmetic<C, W>,
    points: Seq<(i64, u64)>,
    op: RangeFnOp,
)
    ensures
        window_value(ar, points, op) is Some <==> points.len() >= 2 && match op {
            RangeFnOp::Delta => true,
            RangeFnOp::Irate => points[points.len() - 2].0 < points.last().0,
            RangeFnOp::Rate | RangeFnOp::Increase => points[0].0 < points.last().0,
        },
{
}

/// `delta` is the last value less the first.
pub proof fn law_delta<C: Fn(BinOp, u64, u64) -> u64, W: Fn(i128) -> u64>(
    ar: Arithmetic<C, W>,
    points: Seq<(i64, u64)>,
)
    requires
        points.len() >= 2,
        exact(ar, BinOp::Sub, points.last().1, points[0].1),
    ensures
        window_value(ar, points, RangeFnOp::Delta) is Some,
        number(window_value(ar, points, RangeFnOp::Delta)->0) == number(points.last().1) - number(
            points[0].1,
        ),
{
}

/// `increase` is how far the counter went over the window.
pub proof fn law_increase<C: Fn(BinOp, u64, u64) -> u64, W: Fn(i128) -> u64>(
    ar: Arithmetic<C, W>,
    points: Seq<(i64, u64)>,
)
    requires
        points.len() >= 2,
        points[0].0 < points.last().0,
        all_finite(points),
        adds_up(ar, points),
    ensures
        window_value(ar, points, RangeFnOp::Increase) is Some,
        number(window_value(ar, points, RangeFnOp::Increase)->0) == climbed(points),
{
    law_growth_is_what_was_climbed(ar, points);
}

/// `rate` is how far the counter went over the window, by the seconds from the
/// first sample to the last.
pub proof fn law_rate<C: Fn(BinOp, u64, u64) -> u64, W: Fn(i128) -> u64>(
    ar: Arithmetic<C, W>,
    points: Seq<(i64, u64)>,
)
    requires
        points.len() >= 2,
        points[0].0 < points.last().0,
        all_finite(points),
        adds_up(ar, points),
        divides_by_time(ar, growth(ar, points), points[0].0, points.last().0),
    ensures
        window_value(ar, points, RangeFnOp::Rate) is Some,
        number(window_value(ar, points, RangeFnOp::Rate)->0) * (points.last().0 - points[0].0) as real
            == climbed(points) * 1_000_000real,
{
    law_growth_is_what_was_climbed(ar, points);
    lemma_per_second(ar, growth(ar, points), points[0].0, points.last().0);
}

/// `irate` is how far the counter went from the last sample but one to the last, by
/// the seconds between them.
pub proof fn law_irate<C: Fn(BinOp, u64, u64) -> u64, W: Fn(i128) -> u64>(
    ar: Arithmetic<C, W>,
    points: Seq<(i64, u64)>,
)
    requires
        points.len() >= 2,
        points[points.len() - 2].0 < points.last().0,
        all_finite(points),
        number(points[points.len() - 2].1) <= number(points.last().1) ==> exact(
            ar,
            BinOp::Sub,
            points.last().1,
            points[points.len() - 2].1,
        ),
        divides_by_time(
            ar,
            counted(ar, points[points.len() - 2].1, points.last().1),
            points[points.len() - 2].0,
            points.last().0,
        ),
    ensures
        window_value(ar, points, RangeFnOp::Irate) is Some,
        number(window_value(ar, points, RangeFnOp::Irate)->0) * (points.last().0
            - points[points.len() - 2].0) as real == climb(
            points[points.len() - 2].1,
            points.last().1,
        ) * 1_000_000real,
{
    let n = points.len();
    let (t0, prev) = points[n - 2];
    let (t1, curr) = points[n - 1];
    assert(is_finite_bits(points[n - 2].1) && is_finite_bits(points[n - 1].1));
    law_bits_compare_as_numbers(prev, curr);
    lemma_per_second(ar, counted(ar, prev, curr), t0, t1);
}

// ---------- windows and steps ----------

/// Points put in time order are the same points, none before an earlier one.
pub proof fn law_points_are_put_in_time_order(points: Seq<(i64, u64)>)
    ensures
        time_ordered(in_time_order(points)),
        in_time_order(points).to_multiset() == points.to_multiset(),
        in_time_order(points).len() == points.len(),
{
    lemma_stable_order_exists::<i64, u64>(points);
    let out = in_time_order(points);
    assert forall|i: int, j: int| 0 <= i < j < out.len() implies (#[trigger] out[i]).0 <= (
    #[trigger] out[j]).0 by {
        assert(!(out[j].0 < out[i].0));
    }
    lemma_same_under_every_key(out, points);
}

/// The window that ends at `t` holds just the points from `t - range` to `t`, both
/// included, and keeps their order.
pub proof fn law_a_window_holds_its_points(points: Seq<(i64, u64)>, t: int, range: int)
    ensures
        forall|p: (i64, u64)| #[trigger]
            window(points, t, range).contains(p) <==> points.contains(p) && t - range <= p.0 <= t,
        time_ordered(points) ==> time_ordered(window(points, t, range)),
        window(points, t, range).len() <= points.len(),
    decreases points.len(),
{
    reveal(Seq::filter);
    let f = |p: (i64, u64)| t - range <= p.0 && p.0 <= t;
    let out = window(points, t, range);
    if points.len() > 0 {
        let rest = points.drop_last();
        let n = points.len() - 1;
        let before = window(rest, t, range);
        law_a_window_holds_its_points(rest, t, range);
        assert(points[n] == points.last());
        assert forall|p: (i64, u64)| #[trigger] out.contains(p) <==> points.contains(p) && t - range
            <= p.0 <= t by {
            if out.contains(p) {
                let w = choose|w: int| 0 <= w < out.len() && out[w] == p;
                if w < before.len() {
                    assert(before[w] == p);
                    assert(before.contains(p));
                    let k = choose|k: int| 0 <= k < rest.len() && rest[k] == p;
                    assert(points[k] == p);
                }
            }
            if points.contains(p) && t - range <= p.0 <= t {
                let k = choose|k: int| 0 <= k < points.len() && points[k] == p;
                if k < n {
                    assert(rest[k] == p);
                    assert(rest.contains(p));
                    assert(before.contains(p));
                    let w = choose|w: int| 0 <= w < before.len() && before[w] == p;
                    assert(out[w] == p);
                } else {
                    assert(out[out.len() - 1] == p);
                }
            }
        }
        if time_ordered(points) {
            assert forall|i: int, j: int| 0 <= i < j < rest.len() implies (#[trigger] rest[i]).0
                <= (#[trigger] rest[j]).0 by {
                assert(points[i].0 <= points[j].0);
            }
            assert forall|i: int, j: int| 0 <= i < j < out.len() implies (#[trigger] out[i]).0 <= (
            #[trigger] out[j]).0 by {
                if j < before.len() {
                    assert(before[i].0 <= before[j].0);
                } else {
                    assert(out[i] == before[i]);
                    assert(before.contains(out[i]));
                    let k = choose|k: int| 0 <= k < rest.len() && rest[k] == out[i];
                    assert(points[k].0 <= points[n].0);
                }
            }
        }
    }
}

/// At every step of the range at which the window function has a value, the value
/// stands; and the steps ascend.
pub proof fn law_every_step_has_its_value<C: Fn(BinOp, u64, u64) -> u64, W: Fn(i128) -> u64>(
    ar: Arithmetic<C, W>,
    points: Seq<(i64, u64)>,
    op: RangeFnOp,
    range: int,
    start: int,
    end: int,
    step: int,
    k: int,
)
    requires
        step > 0,
        i64::MIN <= start,
        end <= i64::MAX,
        k >= 0,
        start + k * step <= end,
        window_value(ar, window(points, start + k * step, range), op) is Some,
    ensures
        stepped(ar, points, op, range, start, end, step).contains(
            (
                (start + k * step) as i64,
                window_value(ar, window(points, start + k * step, range), op)->0,
            ),
        ),
    decreases k,
{
    let all = stepped(ar, points, op, range, start, end, step);
    assert(k * step >= 0) by (nonlinear_arith)
        requires
            k >= 0,
            step > 0,
    ;
    if k == 0 {
        assert(0 * step == 0);
        assert(all[0] == (
            start as i64,
            window_value(ar, window(points, start, range), op)->0,
        ));
    } else {
        assert(k * step == step + (k - 1) * step) by (nonlinear_arith);
        assert((k - 1) * step >= 0) by (nonlinear_arith)
            requires
                k >= 1,
                step > 0,
        ;
        let next = start + step;
        let rest = stepped(ar, points, op, range, next, end, step);
        assert(next + (k - 1) * step == start + k * step);
        law_every_step_has_its_value(ar, points, op, range, next, end, step, k - 1);
        let x = (
            (start + k * step) as i64,
            window_value(ar, window(points, start + k * step, range), op)->0,
        );
        let w = choose|w: int| 0 <= w < rest.len() && rest[w] == x;
        if window_value(ar, window(points, start, range), op) is Some {
            assert(all[w + 1] == x);
        } else {
            assert(all[w] == x);
        }
    }
}

/// The values of a window function come by ascending time.
pub proof fn law_steps_ascend<C: Fn(BinOp, u64, u64) -> u64, W: Fn(i128) -> u64>(
    ar: Arithmetic<C, W>,
    points: Seq<(i64, u64)>,
    op: RangeFnOp,
    range: int,
    start: int,
    end: int,
    step: int,
)
    requires
        step > 0,
        i64::MIN <= start,
        end <= i64::MAX,
    ensures
        ascending(stepped(ar, points, op, range, start, end, step)),
        forall|i: int|
            0 <= i < stepped(ar, points, op, range, start, end, step).len() ==> start <= (
            #[trigger] stepped(ar, points, op, range, start, end, step)[i]).0,
    decreases (if start > end { 0 } else { end - start + 1 }),
{
    if start <= end {
        law_steps_ascend(ar, points, op, range, start + step, end, step);
    }
}

/// Window functions are computed of each series by itself, in order.
pub proof fn law_series_are_stepped_one_by_one<C: Fn(BinOp, u64, u64) -> u64, W: Fn(i128) -> u64>(
    ar: Arithmetic<C, W>,
    a: Seq<RangeView>,
    b: Seq<RangeView>,
    op: RangeFnOp,
    range: int,
    start: int,
    end: int,
    step: int,
)
    ensures
        window_series(ar, a + b, op, range, start, end, step) == window_series(
            ar,
            a,
            op,
            range,
            start,
            end,
            step,
        ) + window_series(ar, b, op, range, start, end, step),
{
    let f = |s: RangeView| stepped_series(ar, s, op, range, start, end, step);
    assert((a + b).map_values(f) =~= a.map_values(f) + b.map_values(f));
    lemma_with_points_join(a.map_values(f), b.map_values(f));
}

/// What a window function makes of a series: a series of its name and labels that
/// has, at just the steps of the range at which the window that ends there has a
/// value, that value; none where there is no such step.
pub proof fn law_a_series_is_stepped<C: Fn(BinOp, u64, u64) -> u64, W: Fn(i128) -> u64>(
    ar: Arithmetic<C, W>,
    s: RangeView,
    op: RangeFnOp,
    range: int,
    start: int,
    end: int,
    step: int,
)
    requires
        step > 0,
        i64::MIN <= start,
        end <= i64::MAX,
    ensures
        ({
            let out = window_series(ar, seq![s], op, range, start, end, step);
            &&& out.len() <= 1
            &&& out.len() == 1 ==> {
                &&& out[0].metric_name == s.metric_name
                &&& out[0].labels == s.labels
                &&& out[0].points.len() > 0
                &&& ascending(out[0].points)
                &&& forall|t: i64, v: u64| #[trigger]
                    out[0].points.contains((t, v)) <==> is_step_value(
                        ar,
                        s.points,
                        op,
                        range,
                        start,
                        end,
                        step,
                        t as int,
                        v,
                    )
            }
            &&& out.len() == 0 ==> forall|t: int, v: u64|
                !#[trigger] is_step_value(ar, s.points, op, range, start, end, step, t, v)
        }),
{
    let f = |x: RangeView| stepped_series(ar, x, op, range, start, end, step);
    let all = seq![s].map_values(f);
    reveal_with_fuel(with_points, 2);
    assert(all.drop_last() =~= Seq::empty());
    let points = in_time_order(s.points);
    let values = stepped(ar, points, op, range, start, end, step);
    assert(all.last().points == values);
    law_steps_ascend(ar, points, op, range, start, end, step);
    assert forall|t: i64, v: u64| #[trigger] values.contains((t, v)) <==> is_step_value(
        ar,
        s.points,
        op,
        range,
        start,
        end,
        step,
        t as int,
        v,
    ) by {
        if values.contains((t, v)) {
            let i = choose|i: int| 0 <= i < values.len() && values[i] == (t, v);
            law_values_stand_at_steps(ar, points, op, range, start, end, step, i);
        }
        if is_step_value(ar, s.points, op, range, start, end, step, t as int, v) {
            let k = choose|k: int| k >= 0 && t == start + #[trigger] (k * step);
            law_every_step_has_its_value(ar, points, op, range, start, end, step, k);
        }
    }
    if values.len() == 0 {
        assert forall|t: int, v: u64|
            !#[trigger] is_step_value(ar, s.points, op, range, start, end, step, t, v) by {
            if is_step_value(ar, s.points, op, range, start, end, step, t, v) {
                let k = choose|k: int| k >= 0 && t == start + #[trigger] (k * step);
                law_every_step_has_its_value(ar, points, op, range, start, end, step, k);
                assert(values.contains((t as i64, v)));
            }
        }
    }
}

/// Whether `t` is a step of a range and `v` the value of the window that ends there.
pub open spec fn is_step_value<C: Fn(BinOp, u64, u64) -> u64, W: Fn(i128) -> u64>(
    ar: Arithmetic<C, W>,
    points: Seq<(i64, u64)>,
    op: RangeFnOp,
    range: int,
    start: int,
    end: int,
    step: int,
    t: int,
    v: u64,
) -> bool {
    &&& start <= t <= end
    &&& exists|k: int| k >= 0 && t == start + #[trigger] (k * step)
    &&& window_value(ar, window(in_time_order(points), t, range), op) == Some(v)
}

} // verus!
