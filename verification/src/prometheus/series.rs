//! Rows gathered into series: the latest sample of each, all of them, or a
//! window function at every step.

use vstd::prelude::*;
use crate::ordered::{
    items_under, keyed, keys_of, lemma_gathered_mapped, lemma_stable_order, sort_by_key,
    stable_order, with_items, Groups,
};
use crate::prometheus::numbers::{compute_range_fn, window_value, Arithmetic};
use crate::prometheus::plan::{BinOp, RangeFnOp};
use crate::prometheus::rows::{
    key_text, point_views, range_views, series_key, InstantPoint, PointView, RangePoints, RangeView,
};

verus! {

/// The rows, each filed under the text that identifies its series.
pub open spec fn by_series(rows: Seq<PointView>) -> Seq<(Seq<char>, PointView)> {
    rows.map_values(|r: PointView| (key_text(r.metric_name, r.labels), r))
}

/// The series that the rows of one series make.
pub open spec fn one_series(rows: Seq<PointView>) -> RangeView {
    RangeView {
        metric_name: rows[0].metric_name,
        labels: rows[0].labels,
        points: rows.map_values(|r: PointView| (r.ts_us, r.value)),
    }
}

/// The series that the rows make, in the order of their identifying texts, each
/// with its points in the order they came.
pub open spec fn series_of(rows: Seq<PointView>) -> Seq<RangeView> {
    let input = by_series(rows);
    let keys = keys_of::<String, PointView>(input);
    Seq::new(keys.len(), |i: int| one_series(items_under(input, keys[i])))
}

/// Of the rows of one series, the first of those with the latest timestamp.
pub open spec fn latest(rows: Seq<PointView>) -> PointView
    decreases rows.len(),
{
    if rows.len() <= 1 {
        rows[0]
    } else {
        let before = latest(rows.drop_last());
        if before.ts_us >= rows.last().ts_us {
            before
        } else {
            rows.last()
        }
    }
}

/// The latest row of each series, in the order of their identifying texts.
pub open spec fn latest_of(rows: Seq<PointView>) -> Seq<PointView> {
    let input = by_series(rows);
    let keys = keys_of::<String, PointView>(input);
    Seq::new(keys.len(), |i: int| latest(items_under(input, keys[i])))
}

fn gather_rows(rows: Vec<InstantPoint>) -> (g: Groups<String, InstantPoint>)
    ensures
        g.items@.len() == keys_of::<String, PointView>(by_series(point_views(rows@))).len(),
        forall|i: int|
            0 <= i < g.items@.len() ==> point_views((#[trigger] g.items@[i])@) == items_under(
                by_series(point_views(rows@)),
                keys_of::<String, PointView>(by_series(point_views(rows@)))[i],
            ),
        forall|i: int| 0 <= i < g.items@.len() ==> (#[trigger] g.items@[i])@.len() > 0,
{
    let ghost all = by_series(point_views(rows@));
    let ghost f = |p: InstantPoint| p@;
    let mut g: Groups<String, InstantPoint> = Groups::new();
    assert(with_items(g.input@, f) =~= all.take(0));
    for r in it: rows
        invariant
            it.seq() == rows@,
            all == by_series(point_views(rows@)),
            f == (|p: InstantPoint| p@),
            g.wf(),
            with_items(g.input@, f) == all.take(it.index() as int),
            all.take(all.len() as int) =~= all,
    {
        let ghost before = g.input@;
        let key = series_key(r.metric_name.as_str(), &r.labels);
        g.push(key, r);
        proof {
            assert(all[it.index() as int] == (key@, r@));
            assert(with_items(g.input@, f) =~= with_items(before, f).push((key@, r@)));
            assert(all.take(it.index() as int + 1) =~= all.take(it.index() as int).push(
                all[it.index() as int],
            ));
        }
    }
    proof {
        lemma_gathered_mapped::<String, InstantPoint, PointView>(
            g.input@,
            g.key_views(),
            g.item_views(),
            f,
        );
        assert forall|i: int| 0 <= i < g.items@.len() implies point_views(
            (#[trigger] g.items@[i])@,
        ) == items_under(all, keys_of::<String, PointView>(all)[i]) by {
            assert(g.item_views()[i] == g.items@[i]@);
            assert(point_views(g.items@[i]@) =~= g.item_views()[i].map_values(f));
        }
        assert forall|i: int| 0 <= i < g.items@.len() implies (#[trigger] g.items@[i])@.len()
            > 0 by {
            assert(g.item_views()[i] == g.items@[i]@);
        }
    }
    g
}

/// Gather rows into series, in the order of their identifying texts, so that
/// the output is stable.
pub fn group_rows_by_series(rows: Vec<InstantPoint>) -> (r: Vec<RangePoints>)
    ensures
        range_views(r@) == series_of(point_views(rows@)),
{
    let ghost input = by_series(point_views(rows@));
    let ghost keys = keys_of::<String, PointView>(input);
    let ghost want = series_of(point_views(rows@));
    let g = gather_rows(rows);
    let ghost groups = g.items@;
    let mut out: Vec<RangePoints> = Vec::new();
    assert(range_views(out@) =~= want.take(0));
    for m in it: g.items
        invariant
            it.seq() == groups,
            groups.len() == keys.len(),
            want == Seq::new(keys.len(), |i: int| one_series(items_under(input, keys[i]))),
            forall|i: int|
                0 <= i < groups.len() ==> point_views((#[trigger] groups[i])@) == items_under(
                    input,
                    keys[i],
                ),
            forall|i: int| 0 <= i < groups.len() ==> (#[trigger] groups[i])@.len() > 0,
            range_views(out@) == want.take(it.index() as int),
            want.take(want.len() as int) =~= want,
    {
        let ghost before = out@;
        let s = series_from(m);
        out.push(s);
        proof {
            assert(groups[it.index() as int] == m);
            assert(want[it.index() as int] == s@);
            assert(range_views(out@) =~= range_views(before).push(s@));
            assert(want.take(it.index() as int + 1) =~= want.take(it.index() as int).push(
                want[it.index() as int],
            ));
        }
    }
    out
}

fn series_from(rows: Vec<InstantPoint>) -> (r: RangePoints)
    requires
        rows@.len() > 0,
    ensures
        r@ == one_series(point_views(rows@)),
{
    let metric_name = rows[0].metric_name.clone();
    let labels = rows[0].labels.clone();
    let mut points: Vec<(i64, u64)> = Vec::new();
    let mut i: usize = 0;
    while i < rows.len()
        invariant
            i <= rows@.len(),
            points@.len() == i,
            forall|j: int|
                0 <= j < i ==> #[trigger] points@[j] == (rows@[j].ts_us, rows@[j].value),
        decreases rows@.len() - i,
    {
        points.push((rows[i].ts_us, rows[i].value));
        i += 1;
    }
    let r = RangePoints { metric_name, labels, points };
    proof {
        assert(point_views(rows@)[0] == rows@[0]@);
        assert(r@.points =~= one_series(point_views(rows@)).points);
    }
    r
}

fn latest_row(rows: Vec<InstantPoint>) -> (r: InstantPoint)
    requires
        rows@.len() > 0,
    ensures
        r@ == latest(point_views(rows@)),
{
    let ghost all = point_views(rows@);
    let mut at: usize = 0;
    let mut i: usize = 1;
    assert(all.take(1).len() == 1);
    while i < rows.len()
        invariant
            all == point_views(rows@),
            at < i <= rows@.len(),
            rows@[at as int]@ == latest(all.take(i as int)),
        decreases rows@.len() - i,
    {
        proof {
            assert(all.take(i as int + 1).drop_last() =~= all.take(i as int));
            assert(all.take(i as int + 1).last() == rows@[i as int]@);
        }
        if rows[at].ts_us < rows[i].ts_us {
            at = i;
        }
        i += 1;
    }
    assert(all.take(i as int) =~= all);
    rows[at].clone()
}

/// The latest sample of each series, in the order of their identifying texts.
pub fn latest_per_series(rows: Vec<InstantPoint>) -> (r: Vec<InstantPoint>)
    ensures
        point_views(r@) == latest_of(point_views(rows@)),
{
    let ghost input = by_series(point_views(rows@));
    let ghost keys = keys_of::<String, PointView>(input);
    let ghost want = latest_of(point_views(rows@));
    let g = gather_rows(rows);
    let ghost groups = g.items@;
    let mut out: Vec<InstantPoint> = Vec::new();
    assert(point_views(out@) =~= want.take(0));
    for m in it: g.items
        invariant
            it.seq() == groups,
            groups.len() == keys.len(),
            want == Seq::new(keys.len(), |i: int| latest(items_under(input, keys[i]))),
            forall|i: int|
                0 <= i < groups.len() ==> point_views((#[trigger] groups[i])@) == items_under(
                    input,
                    keys[i],
                ),
            forall|i: int| 0 <= i < groups.len() ==> (#[trigger] groups[i])@.len() > 0,
            point_views(out@) == want.take(it.index() as int),
            want.take(want.len() as int) =~= want,
    {
        let ghost before = out@;
        let s = latest_row(m);
        out.push(s);
        proof {
            assert(groups[it.index() as int] == m);
            assert(want[it.index() as int] == s@);
            assert(point_views(out@) =~= point_views(before).push(s@));
            assert(want.take(it.index() as int + 1) =~= want.take(it.index() as int).push(
                want[it.index() as int],
            ));
        }
    }
    out
}

/// The latest row of a series is one of its rows, and none of them is later.
pub proof fn law_latest(rows: Seq<PointView>)
    requires
        rows.len() > 0,
    ensures
        rows.contains(latest(rows)),
        forall|i: int| 0 <= i < rows.len() ==> (#[trigger] rows[i]).ts_us <= latest(rows).ts_us,
    decreases rows.len(),
{
    assert(rows[rows.len() - 1] == rows.last());
    if rows.len() > 1 {
        let rest = rows.drop_last();
        law_latest(rest);
        let w = choose|w: int| 0 <= w < rest.len() && rest[w] == latest(rest);
        assert(rows[w] == latest(rest));
        assert forall|i: int| 0 <= i < rows.len() implies (#[trigger] rows[i]).ts_us <= latest(
            rows,
        ).ts_us by {
            if i < rest.len() {
                assert(rest[i] == rows[i]);
            }
        }
    }
}

/// Of several rows at the latest time the first counts.
pub proof fn law_the_first_of_the_latest(rows: Seq<PointView>, i: int)
    requires
        0 <= i < rows.len(),
        rows[i].ts_us == latest(rows).ts_us,
        forall|k: int| 0 <= k < i ==> (#[trigger] rows[k]).ts_us < rows[i].ts_us,
    ensures
        latest(rows) == rows[i],
    decreases rows.len(),
{
    if rows.len() > 1 {
        let rest = rows.drop_last();
        law_latest(rows);
        law_latest(rest);
        assert forall|k: int| 0 <= k < i && k < rest.len() implies (#[trigger] rest[k]).ts_us
            < rows[i].ts_us by {
            assert(rest[k] == rows[k]);
        }
        if i < rest.len() {
            assert(rest[i] == rows[i]);
            law_the_first_of_the_latest(rest, i);
        } else {
            let w = choose|w: int| 0 <= w < rest.len() && rest[w] == latest(rest);
            assert(rest[w].ts_us < rows[i].ts_us);
        }
    }
}

// ---------- window functions at every step ----------

/// The points in time order, points of one time in the order they came.
pub open spec fn in_time_order(points: Seq<(i64, u64)>) -> Seq<(i64, u64)> {
    stable_order::<i64, u64>(points)
}

/// The points of the window that ends at `t` and reaches `range` back, both ends
/// included.
pub open spec fn window(points: Seq<(i64, u64)>, t: int, range: int) -> Seq<(i64, u64)> {
    points.filter(|p: (i64, u64)| t - range <= p.0 && p.0 <= t)
}

/// The value of the window function at every step from `t` to `end` that has
/// one.
pub open spec fn stepped<C: Fn(BinOp, u64, u64) -> u64, W: Fn(i128) -> u64>(
    ar: Arithmetic<C, W>,
    points: Seq<(i64, u64)>,
    op: RangeFnOp,
    range: int,
    t: int,
    end: int,
    step: int,
) -> Seq<(i64, u64)>
    decreases (if t > end { 0 } else { end - t + 1 }),
{
    if t > end || step <= 0 {
        Seq::empty()
    } else {
        let rest = stepped(ar, points, op, range, t + step, end, step);
        match window_value(ar, window(points, t, range), op) {
            Some(v) => seq![(t as i64, v)] + rest,
            None => rest,
        }
    }
}

/// A series with its points replaced by the window function's values.
pub open spec fn stepped_series<C: Fn(BinOp, u64, u64) -> u64, W: Fn(i128) -> u64>(
    ar: Arithmetic<C, W>,
    s: RangeView,
    op: RangeFnOp,
    range: int,
    start: int,
    end: int,
    step: int,
) -> RangeView {
    RangeView {
        metric_name: s.metric_name,
        labels: s.labels,
        points: stepped(ar, in_time_order(s.points), op, range, start, end, step),
    }
}

/// The series that have a value at some step.
pub open spec fn with_points(series: Seq<RangeView>) -> Seq<RangeView>
    decreases series.len(),
{
    if series.len() == 0 {
        Seq::empty()
    } else if series.last().points.len() > 0 {
        with_points(series.drop_last()).push(series.last())
    } else {
        with_points(series.drop_last())
    }
}

/// The window function of every series at every step; series without a value
/// are left out.
pub open spec fn window_series<C: Fn(BinOp, u64, u64) -> u64, W: Fn(i128) -> u64>(
    ar: Arithmetic<C, W>,
    series: Seq<RangeView>,
    op: RangeFnOp,
    range: int,
    start: int,
    end: int,
    step: int,
) -> Seq<RangeView> {
    with_points(series.map_values(
        |s: RangeView| stepped_series(ar, s, op, range, start, end, step),
    ))
}

fn sort_points(points: Vec<(i64, u64)>) -> (r: Vec<(i64, u64)>)
    ensures
        r@ == in_time_order(points@),
        time_ordered(r@),
{
    let r = sort_by_key::<i64, u64>(points);
    proof {
        assert(keyed(points@) =~= points@);
        assert(keyed(r@) =~= r@);
        lemma_stable_order::<i64, u64>(points@, r@);
        assert forall|i: int, j: int| 0 <= i < j < r@.len() implies (#[trigger] r@[i]).0 <= (
        #[trigger] r@[j]).0 by {
            assert(!(r@[j].0 < r@[i].0));
        }
    }
    r
}

/// Whether no point is earlier than one that stands ahead of it.
pub open spec fn time_ordered(points: Seq<(i64, u64)>) -> bool {
    forall|i: int, j: int|
        0 <= i < j < points.len() ==> (#[trigger] points[i]).0 <= (#[trigger] points[j]).0
}

/// How many points at the front are before `t`, or, where `also` is true, not
/// after it.
fn count_before(points: &Vec<(i64, u64)>, t: i128, also: bool) -> (r: usize)
    requires
        time_ordered(points@),
    ensures
        r <= points@.len(),
        forall|i: int|
            0 <= i < points@.len() ==> ((#[trigger] points@[i]).0 < t || (also && points@[i].0
                == t)) == (i < r),
{
    let mut lo: usize = 0;
    let mut hi: usize = points.len();
    while lo < hi
        invariant
            time_ordered(points@),
            lo <= hi <= points@.len(),
            forall|i: int|
                0 <= i < lo ==> ((#[trigger] points@[i]).0 < t || (also && points@[i].0 == t)),
            forall|i: int|
                hi <= i < points@.len() ==> !((#[trigger] points@[i]).0 < t || (also
                    && points@[i].0 == t)),
        decreases hi - lo,
    {
        let mid: usize = lo + (hi - lo) / 2;
        let at: i128 = points[mid].0 as i128;
        if at < t || (also && at == t) {
            assert forall|i: int| 0 <= i < mid + 1 implies ((#[trigger] points@[i]).0 < t || (also
                && points@[i].0 == t)) by {
                if i < mid {
                    assert(points@[i].0 <= points@[mid as int].0);
                }
            }
            lo = mid + 1;
        } else {
            assert forall|i: int| mid <= i < points@.len() implies !((#[trigger] points@[i]).0 < t
                || (also && points@[i].0 == t)) by {
                if i > mid {
                    assert(points@[mid as int].0 <= points@[i].0);
                }
            }
            hi = mid;
        }
    }
    lo
}

proof fn lemma_window(points: Seq<(i64, u64)>, t: int, range: int, lo: int, hi: int)
    requires
        0 <= lo <= points.len(),
        0 <= hi <= points.len(),
        forall|i: int| 0 <= i < points.len() ==> ((#[trigger] points[i]).0 < t - range) == (i < lo),
        forall|i: int| 0 <= i < points.len() ==> ((#[trigger] points[i]).0 <= t) == (i < hi),
    ensures
        window(points, t, range) == if lo <= hi {
            points.subrange(lo, hi)
        } else {
            Seq::empty()
        },
    decreases points.len(),
{
    reveal(Seq::filter);
    let w = if lo <= hi {
        points.subrange(lo, hi)
    } else {
        Seq::empty()
    };
    if points.len() == 0 {
        assert(window(points, t, range) =~= w);
    } else {
        let rest = points.drop_last();
        let n = rest.len() as int;
        let lo0 = if lo > n {
            n
        } else {
            lo
        };
        let hi0 = if hi > n {
            n
        } else {
            hi
        };
        assert forall|i: int| 0 <= i < rest.len() implies ((#[trigger] rest[i]).0 < t - range) == (i
            < lo0) by {
            assert(rest[i] == points[i]);
        }
        assert forall|i: int| 0 <= i < rest.len() implies ((#[trigger] rest[i]).0 <= t) == (i
            < hi0) by {
            assert(rest[i] == points[i]);
        }
        lemma_window(rest, t, range, lo0, hi0);
        assert(points[n] == points.last());
        let w0 = if lo0 <= hi0 {
            rest.subrange(lo0, hi0)
        } else {
            Seq::empty()
        };
        if t - range <= points.last().0 && points.last().0 <= t {
            assert(lo <= n && hi == n + 1);
            assert(w =~= w0.push(points.last()));
        } else {
            assert(w =~= w0);
        }
    }
}

/// The window function of one series' points, which are in time order, at every
/// step.
fn step_points<C: Fn(BinOp, u64, u64) -> u64, W: Fn(i128) -> u64>(
    ar: &Arithmetic<C, W>,
    points: &Vec<(i64, u64)>,
    op: RangeFnOp,
    range_us: i64,
    start_us: i64,
    end_us: i64,
    step_us: i64,
) -> (r: Vec<(i64, u64)>)
    requires
        ar.wf(),
        step_us > 0,
        time_ordered(points@),
    ensures
        r@ == stepped(
            *ar,
            points@,
            op,
            range_us as int,
            start_us as int,
            end_us as int,
            step_us as int,
        ),
{
    let mut out: Vec<(i64, u64)> = Vec::new();
    let end: i128 = end_us as i128;
    let mut t: i128 = start_us as i128;
    let ghost want = stepped(
        *ar,
        points@,
        op,
        range_us as int,
        start_us as int,
        end_us as int,
        step_us as int,
    );
    assert(out@ + want =~= want);
    while t <= end
        invariant
            ar.wf(),
            step_us > 0,
            time_ordered(points@),
            end == end_us,
            start_us <= t <= i64::MAX + step_us,
            want == out@ + stepped(
                *ar,
                points@,
                op,
                range_us as int,
                t as int,
                end_us as int,
                step_us as int,
            ),
        decreases end - t + step_us,
    {
        let ghost before = out@;
        let from: i128 = t - range_us as i128;
        let lo: usize = count_before(points, from, false);
        let hi: usize = count_before(points, t, true);
        proof {
            lemma_window(points@, t as int, range_us as int, lo as int, hi as int);
        }
        let ghost w = window(points@, t as int, range_us as int);
        let ghost rest = stepped(
            *ar,
            points@,
            op,
            range_us as int,
            t + step_us,
            end_us as int,
            step_us as int,
        );
        if lo < hi {
            let slice = vstd::slice::slice_subrange(points.as_slice(), lo, hi);
            if let Some(v) = compute_range_fn(ar, slice, op) {
                out.push((t as i64, v));
                assert(out@ + rest =~= before + (seq![(t as i64, v)] + rest));
            }
        } else {
            assert(w.len() == 0);
        }
        t = t + step_us as i128;
    }
    assert(want =~= out@);
    out
}

/// Evaluate a window function over every series at each step from `start_us` to
/// `end_us`. The series hold the samples of every step's window.
pub fn range_fn_series<C: Fn(BinOp, u64, u64) -> u64, W: Fn(i128) -> u64>(
    ar: &Arithmetic<C, W>,
    series: Vec<RangePoints>,
    op: RangeFnOp,
    range_us: i64,
    start_us: i64,
    end_us: i64,
    step_us: i64,
) -> (r: Vec<RangePoints>)
    requires
        ar.wf(),
        step_us > 0,
    ensures
        range_views(r@) == window_series(
            *ar,
            range_views(series@),
            op,
            range_us as int,
            start_us as int,
            end_us as int,
            step_us as int,
        ),
{
    let ghost f = |s: RangeView|
        stepped_series(
            *ar,
            s,
            op,
            range_us as int,
            start_us as int,
            end_us as int,
            step_us as int,
        );
    let ghost all = range_views(series@).map_values(f);
    let mut out: Vec<RangePoints> = Vec::new();
    assert(range_views(out@) =~= with_points(all.take(0)));
    for s in it: series
        invariant
            it.seq() == series@,
            ar.wf(),
            step_us > 0,
            f == (|s: RangeView|
                stepped_series(
                    *ar,
                    s,
                    op,
                    range_us as int,
                    start_us as int,
                    end_us as int,
                    step_us as int,
                )),
            all == range_views(series@).map_values(f),
            range_views(out@) == with_points(all.take(it.index() as int)),
            all.take(all.len() as int) =~= all,
    {
        let ghost before = out@;
        let ghost s0 = s@;
        let points = sort_points(s.points);
        let values = step_points(ar, &points, op, range_us, start_us, end_us, step_us);
        proof {
            let t = all.take(it.index() as int + 1);
            assert(t.drop_last() =~= all.take(it.index() as int));
            assert(t.last() == f(s0));
        }
        if values.len() > 0 {
            let n = RangePoints { metric_name: s.metric_name, labels: s.labels, points: values };
            out.push(n);
            assert(n@ == f(s0));
            assert(range_views(out@) =~= range_views(before).push(n@));
        }
    }
    out
}

/// The values of a window function stand at the steps, counted from the start of
/// the range and not beyond its end, and each is that of the window that ends
/// there.
pub proof fn law_values_stand_at_steps<C: Fn(BinOp, u64, u64) -> u64, W: Fn(i128) -> u64>(
    ar: Arithmetic<C, W>,
    points: Seq<(i64, u64)>,
    op: RangeFnOp,
    range: int,
    start: int,
    end: int,
    step: int,
    i: int,
)
    requires
        step > 0,
        i64::MIN <= start,
        end <= i64::MAX,
        0 <= i < stepped(ar, points, op, range, start, end, step).len(),
    ensures
        ({
            let (t, v) = stepped(ar, points, op, range, start, end, step)[i];
            &&& start <= t <= end
            &&& exists|k: int| k >= 0 && t == start + #[trigger] (k * step)
            &&& window_value(ar, window(points, t as int, range), op) == Some(v)
        }),
    decreases (if start > end { 0 } else { end - start + 1 }),
{
    let all = stepped(ar, points, op, range, start, end, step);
    let rest = stepped(ar, points, op, range, start + step, end, step);
    let here = window_value(ar, window(points, start, range), op);
    let first = if here is Some {
        1int
    } else {
        0
    };
    if i < first {
        assert(all[i].0 == start + 0 * step);
    } else {
        assert(all[i] == rest[i - first]);
        law_values_stand_at_steps(ar, points, op, range, start + step, end, step, i - first);
        let t = rest[i - first].0;
        let k = choose|k: int| k >= 0 && t == start + step + #[trigger] (k * step);
        assert((k + 1) * step == k * step + step) by (nonlinear_arith);
        assert(t == start + (k + 1) * step);
    }
}

} // verus!
