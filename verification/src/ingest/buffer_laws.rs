//! What holds of a buffer over its whole life: no sample is lost or handed out
//! twice, and each series gets one catalog row.

use vstd::prelude::*;
use crate::calendar::day_of;
use crate::ingest::buffer::{
    after_event, filed, first_of, has_day, has_series, holds, lemma_day_fits, lemma_points_day,
    points_of, BufferEvent, BufferView, DayMap, SampleView, Snapshot, BYTES_PER_SAMPLE,
};
use crate::ordered::{
    flat, items_under, lemma_item_comes_from, lemma_item_is_under, lemma_items_under_join,
};

verus! {

// ---------- one snapshot ----------

/// Every sample inserted is in the day map, under its day and its series.
pub proof fn law_no_sample_is_lost(by_day: DayMap, s: Seq<SampleView>, i: int)
    requires
        holds(by_day, s),
        0 <= i < s.len(),
    ensures
        by_day.dom().contains(day_of(s[i].ts_us) as i32),
        by_day[day_of(s[i].ts_us) as i32]@.dom().contains(s[i].series_id),
        by_day[day_of(s[i].ts_us) as i32]@[s[i].series_id]@.contains((s[i].ts_us, s[i].value)),
{
    let day = day_of(s[i].ts_us) as i32;
    let id = s[i].series_id;
    lemma_day_fits(s[i].ts_us);
    assert(has_day(s, day));
    lemma_item_is_under(filed(s), i);
    assert(filed(s)[i] == ((day, id), (s[i].ts_us, s[i].value)));
    let p = points_of(s, day, id);
    assert(p.contains((s[i].ts_us, s[i].value)));
    assert(p.len() > 0);
}

/// A series is described by the first of its samples.
pub proof fn law_the_first_sample_describes_its_series(s: Seq<SampleView>, i: int)
    requires
        0 <= i < s.len(),
        forall|k: int| 0 <= k < i ==> (#[trigger] s[k]).series_id != s[i].series_id,
    ensures
        first_of(s, s[i].series_id) == s[i],
    decreases s.len(),
{
    let id = s[i].series_id;
    let front = s.drop_last();
    if i < front.len() {
        assert forall|k: int| 0 <= k < i implies (#[trigger] front[k]).series_id != id by {
            assert(front[k] == s[k]);
        }
        assert(front[i] == s[i]);
        assert(has_series(front, id));
        law_the_first_sample_describes_its_series(front, i);
    } else if has_series(front, id) {
        let k = choose|k: int| 0 <= k < front.len() && (#[trigger] front[k]).series_id == id;
        assert(s[k].series_id == id);
    }
}

/// Every point of the day map is that of a sample inserted, of that series and
/// on that day.
pub proof fn law_no_point_is_made_up(
    by_day: DayMap,
    s: Seq<SampleView>,
    day: i32,
    id: i64,
    j: int,
)
    requires
        holds(by_day, s),
        by_day.dom().contains(day),
        by_day[day]@.dom().contains(id),
        0 <= j < by_day[day]@[id]@.len(),
    ensures
        day_of(by_day[day]@[id]@[j].0) == day,
        exists|i: int|
            0 <= i < s.len() && (#[trigger] s[i]).series_id == id && (s[i].ts_us, s[i].value)
                == by_day[day]@[id]@[j],
{
    let p = points_of(s, day, id);
    assert(by_day[day]@[id]@ == p);
    lemma_item_comes_from(filed(s), (day, id), j);
    let i = choose|i: int| 0 <= i < filed(s).len() && #[trigger] filed(s)[i] == ((day, id), p[j]);
    assert(filed(s)[i] == ((day_of(s[i].ts_us) as i32, s[i].series_id), (s[i].ts_us, s[i].value)));
    lemma_day_fits(s[i].ts_us);
    assert(s[i].series_id == id);
}

/// The days and series that a day map has points for.
pub open spec fn filled(by_day: DayMap) -> Set<(i32, i64)> {
    Set::new(
        |p: (i32, i64)| by_day.dom().contains(p.0) && by_day[p.0]@.dom().contains(p.1),
    )
}

/// The sum of a function over a finite set.
pub open spec fn sum_over<K>(keys: Set<K>, f: spec_fn(K) -> nat) -> nat
    decreases keys.len(),
    when keys.finite()
{
    if keys.len() == 0 {
        0
    } else {
        f(keys.choose()) + sum_over(keys.remove(keys.choose()), f)
    }
}

/// How many points a day map holds.
pub open spec fn point_count(by_day: DayMap) -> nat {
    sum_over(filled(by_day), |p: (i32, i64)| by_day[p.0]@[p.1]@.len())
}

/// A sum can be taken in any order.
proof fn lemma_sum_remove<K>(keys: Set<K>, f: spec_fn(K) -> nat, k: K)
    requires
        keys.finite(),
        keys.contains(k),
    ensures
        sum_over(keys, f) == f(k) + sum_over(keys.remove(k), f),
    decreases keys.len(),
{
    let c = keys.choose();
    assert(keys.len() > 0);
    assert(keys.contains(c));
    if c != k {
        lemma_sum_remove(keys.remove(c), f, k);
        lemma_sum_remove(keys.remove(k), f, c);
        assert(keys.remove(c).remove(k) =~= keys.remove(k).remove(c));
    }
}

proof fn lemma_sum_same<K>(keys: Set<K>, f: spec_fn(K) -> nat, g: spec_fn(K) -> nat)
    requires
        keys.finite(),
        forall|k: K| #[trigger] keys.contains(k) ==> f(k) == g(k),
    ensures
        sum_over(keys, f) == sum_over(keys, g),
    decreases keys.len(),
{
    if keys.len() > 0 {
        let c = keys.choose();
        assert(keys.contains(c));
        assert forall|k: K| #[trigger] keys.remove(c).contains(k) implies f(k) == g(k) by {
            assert(keys.contains(k));
        }
        lemma_sum_same(keys.remove(c), f, g);
    }
}

/// The keys that occur in an input.
spec fn keys_in<V, T>(input: Seq<(V, T)>) -> Set<V>
    decreases input.len(),
{
    if input.len() == 0 {
        Set::empty()
    } else {
        keys_in(input.drop_last()).insert(input.last().0)
    }
}

proof fn lemma_keys_in<V, T>(input: Seq<(V, T)>)
    ensures
        keys_in(input).finite(),
        forall|k: V| #[trigger] keys_in(input).contains(k) <==> items_under(input, k).len() > 0,
        sum_over(keys_in(input), |k: V| items_under(input, k).len()) == input.len(),
    decreases input.len(),
{
    let f = |k: V| items_under(input, k).len();
    if input.len() > 0 {
        let rest = input.drop_last();
        let x = input.last().0;
        let g = |k: V| items_under(rest, k).len();
        lemma_keys_in(rest);
        assert forall|k: V| #[trigger] keys_in(input).contains(k) <==> items_under(input, k).len()
            > 0 by {
            assert(keys_in(rest).contains(k) <==> items_under(rest, k).len() > 0);
        }
        let others = keys_in(rest).remove(x);
        assert(keys_in(input).remove(x) =~= others);
        lemma_sum_remove(keys_in(input), f, x);
        assert forall|k: V| #[trigger] others.contains(k) implies f(k) == g(k) by {
            assert(k != x);
        }
        lemma_sum_same(others, f, g);
        if keys_in(rest).contains(x) {
            lemma_sum_remove(keys_in(rest), g, x);
        } else {
            assert(others =~= keys_in(rest));
            assert(items_under(rest, x).len() == 0);
        }
        assert(f(x) == g(x) + 1);
    }
}

/// The points of a day map are as many as the samples that it holds.
pub proof fn law_points_are_counted(by_day: DayMap, s: Seq<SampleView>)
    requires
        holds(by_day, s),
    ensures
        filled(by_day).finite(),
        point_count(by_day) == s.len(),
{
    let input = filed(s);
    lemma_keys_in(input);
    let f = |p: (i32, i64)| items_under(input, p).len();
    let g = |p: (i32, i64)| by_day[p.0]@[p.1]@.len();
    assert forall|p: (i32, i64)| filled(by_day).contains(p) == keys_in(input).contains(p) by {
        assert(points_of(s, p.0, p.1) == items_under(input, p));
        lemma_points_day(s, p.0, p.1);
        assert(by_day.dom().contains(p.0) <==> has_day(s, p.0));
    }
    assert(filled(by_day) =~= keys_in(input));
    assert forall|p: (i32, i64)| #[trigger] filled(by_day).contains(p) implies f(p) == g(p) by {
        assert(by_day[p.0]@[p.1]@ == points_of(s, p.0, p.1));
    }
    lemma_sum_same(filled(by_day), f, g);
}

/// A snapshot agrees with itself: its counts are those of its points; no day and
/// no series in it is without points; a point's time falls on its day; and every
/// series in it was known or is among its new series, never both.
pub proof fn law_snapshot_agrees(snap: Snapshot, b: BufferView)
    requires
        snap.is_of(b),
    ensures
        snap.sample_count == point_count(snap.by_day@),
        snap.bytes_estimate == snap.sample_count * BYTES_PER_SAMPLE,
        forall|day: i32| #[trigger]
            snap.by_day@.dom().contains(day) ==> exists|id: i64| #[trigger]
                snap.by_day@[day]@.dom().contains(id),
        forall|day: i32, id: i64|
            filled(snap.by_day@).contains((day, id)) ==> (#[trigger] snap.by_day@[day]@[id])@.len()
                > 0,
        forall|day: i32, id: i64, j: int|
            filled(snap.by_day@).contains((day, id)) && 0 <= j < snap.by_day@[day]@[id]@.len()
                ==> day_of((#[trigger] snap.by_day@[day]@[id]@[j]).0) == day,
        forall|day: i32, id: i64|
            #![trigger snap.by_day@[day]@.dom().contains(id)]
            filled(snap.by_day@).contains((day, id)) ==> (b.known.contains(id)
                != snap.new_series@.dom().contains(id)),
        forall|id: i64|
            snap.new_series@.dom().contains(id) ==> !b.known.contains(id) && (
            #[trigger] snap.new_series@[id]).series_id == id,
{
    let m = snap.by_day@;
    let s = b.inserted;
    law_points_are_counted(m, s);
    assert forall|day: i32| #[trigger] m.dom().contains(day) implies exists|id: i64| #[trigger]
        m[day]@.dom().contains(id) by {
        assert(has_day(s, day));
        let i = choose|i: int| 0 <= i < s.len() && day_of((#[trigger] s[i]).ts_us) == day;
        law_no_sample_is_lost(m, s, i);
        assert(m[day]@.dom().contains(s[i].series_id));
    }
    assert forall|day: i32, id: i64| filled(m).contains((day, id)) implies (
    #[trigger] m[day]@[id])@.len() > 0 by {
        assert(m[day]@.dom().contains(id));
        assert(m[day]@[id]@ == points_of(s, day, id));
    }
    assert forall|day: i32, id: i64, j: int|
        filled(m).contains((day, id)) && 0 <= j < m[day]@[id]@.len() implies day_of(
        (#[trigger] m[day]@[id]@[j]).0,
    ) == day by {
        law_no_point_is_made_up(m, s, day, id, j);
    }
    assert forall|day: i32, id: i64|
        #![trigger m[day]@.dom().contains(id)]
        filled(m).contains((day, id)) implies (b.known.contains(id)
        != snap.new_series@.dom().contains(id)) by {
        lemma_points_day(s, day, id);
        assert(snap.new_series@.dom().contains(id) <==> has_series(s, id) && !b.known.contains(id));
    }
}

// ---------- a buffer's life ----------

/// What a buffer holds that started with the ids of `seed` known, after some
/// events.
pub open spec fn state_after(seed: Set<i64>, events: Seq<BufferEvent>) -> BufferView
    decreases events.len(),
{
    if events.len() == 0 {
        BufferView { inserted: Seq::empty(), known: seed, max_record_seq: 0 }
    } else {
        after_event(state_after(seed, events.drop_last()), events.last())
    }
}

/// What each `take` among the events found in the buffer.
pub open spec fn handed_out(seed: Set<i64>, events: Seq<BufferEvent>) -> Seq<BufferView>
    decreases events.len(),
{
    if events.len() == 0 {
        Seq::empty()
    } else {
        let rest = handed_out(seed, events.drop_last());
        match events.last() {
            BufferEvent::Take => rest.push(state_after(seed, events.drop_last())),
            BufferEvent::Insert { .. } => rest,
        }
    }
}

/// The samples inserted by some events.
pub open spec fn inserted_by(events: Seq<BufferEvent>) -> Seq<SampleView>
    decreases events.len(),
{
    if events.len() == 0 {
        Seq::empty()
    } else {
        let rest = inserted_by(events.drop_last());
        match events.last() {
            BufferEvent::Take => rest,
            BufferEvent::Insert { samples, .. } => rest + samples,
        }
    }
}

/// The snapshots are those that the `take`s among the events returned.
pub open spec fn are_snapshots(
    snaps: Seq<Snapshot>,
    seed: Set<i64>,
    events: Seq<BufferEvent>,
) -> bool {
    let b = handed_out(seed, events);
    &&& snaps.len() == b.len()
    &&& forall|k: int| 0 <= k < snaps.len() ==> (#[trigger] snaps[k]).is_of(b[k])
}

/// A series is known where it was known at first or has been handed out.
proof fn lemma_known(seed: Set<i64>, events: Seq<BufferEvent>, id: i64)
    ensures
        state_after(seed, events).known.contains(id) <==> seed.contains(id) || exists|j: int|
            0 <= j < handed_out(seed, events).len() && has_series(
                (#[trigger] handed_out(seed, events)[j]).inserted,
                id,
            ),
        forall|k: int|
            0 <= k < handed_out(seed, events).len() ==> ((#[trigger] handed_out(
                seed,
                events,
            )[k]).known.contains(id) <==> seed.contains(id) || exists|j: int|
                0 <= j < k && has_series((#[trigger] handed_out(seed, events)[j]).inserted, id)),
    decreases events.len(),
{
    if events.len() > 0 {
        let rest = events.drop_last();
        lemma_known(seed, rest, id);
        let h0 = handed_out(seed, rest);
        let h = handed_out(seed, events);
        let s0 = state_after(seed, rest);
        if events.last() is Take {
            assert(h == h0.push(s0));
            assert forall|j: int| 0 <= j < h0.len() implies h[j] == h0[j] by {}
            assert(h[h0.len() as int] == s0);
            if state_after(seed, events).known.contains(id) && !seed.contains(id) {
                if s0.known.contains(id) {
                    let j = choose|j: int|
                        0 <= j < h0.len() && has_series((#[trigger] h0[j]).inserted, id);
                    assert(has_series(h[j].inserted, id));
                } else {
                    assert(has_series(h[h0.len() as int].inserted, id));
                }
            }
            if exists|j: int| 0 <= j < h.len() && has_series((#[trigger] h[j]).inserted, id) {
                let j = choose|j: int| 0 <= j < h.len() && has_series(
                    (#[trigger] h[j]).inserted,
                    id,
                );
                if j < h0.len() {
                    assert(has_series(h0[j].inserted, id));
                }
            }
            assert forall|k: int| 0 <= k < h.len() implies ((#[trigger] h[k]).known.contains(id)
                <==> seed.contains(id) || exists|j: int|
                0 <= j < k && has_series((#[trigger] h[j]).inserted, id)) by {
                let b = if k < h0.len() { h0[k] } else { s0 };
                assert(h[k] == b);
                if exists|j: int| 0 <= j < k && has_series((#[trigger] h[j]).inserted, id) {
                    let j = choose|j: int| 0 <= j < k && has_series(
                        (#[trigger] h[j]).inserted,
                        id,
                    );
                    assert(has_series(h0[j].inserted, id));
                }
                if exists|j: int| 0 <= j < k && has_series((#[trigger] h0[j]).inserted, id) {
                    let j = choose|j: int| 0 <= j < k && has_series(
                        (#[trigger] h0[j]).inserted,
                        id,
                    );
                    assert(has_series(h[j].inserted, id));
                }
            }
        } else {
            assert(h == h0);
        }
    }
}

/// Each series gets one catalog row: over a buffer's whole life its id is among
/// the new series of at most one snapshot, and of none where it was known from
/// the start.
pub proof fn law_series_are_catalogued_once(
    seed: Set<i64>,
    events: Seq<BufferEvent>,
    snaps: Seq<Snapshot>,
    id: i64,
)
    requires
        are_snapshots(snaps, seed, events),
    ensures
        forall|i: int, j: int|
            0 <= i < j < snaps.len() ==> !((#[trigger] snaps[i]).new_series@.dom().contains(id) && (
            #[trigger] snaps[j]).new_series@.dom().contains(id)),
        seed.contains(id) ==> forall|i: int|
            0 <= i < snaps.len() ==> !(#[trigger] snaps[i]).new_series@.dom().contains(id),
{
    lemma_known(seed, events, id);
    let b = handed_out(seed, events);
    assert forall|i: int, j: int| 0 <= i < j < snaps.len() implies !((
    #[trigger] snaps[i]).new_series@.dom().contains(id) && (
    #[trigger] snaps[j]).new_series@.dom().contains(id)) by {
        assert(snaps[i].is_of(b[i]) && snaps[j].is_of(b[j]));
        if snaps[i].new_series@.dom().contains(id) {
            assert(has_series(b[i].inserted, id));
            assert(b[j].known.contains(id));
        }
    }
    assert forall|i: int| seed.contains(id) && 0 <= i < snaps.len() implies !(
    #[trigger] snaps[i]).new_series@.dom().contains(id) by {
        assert(snaps[i].is_of(b[i]));
        assert(b[i].known.contains(id));
    }
}

/// The samples inserted are those handed out, then those still held.
proof fn lemma_handed_out_or_held(seed: Set<i64>, events: Seq<BufferEvent>)
    ensures
        flat(handed_out(seed, events).map_values(|b: BufferView| b.inserted)) + state_after(
            seed,
            events,
        ).inserted == inserted_by(events),
    decreases events.len(),
{
    let f = |b: BufferView| b.inserted;
    let h = handed_out(seed, events).map_values(f);
    let s = state_after(seed, events);
    if events.len() == 0 {
        assert(h =~= Seq::empty());
        assert(flat(h) + s.inserted =~= inserted_by(events));
    } else {
        let rest = events.drop_last();
        lemma_handed_out_or_held(seed, rest);
        let h0 = handed_out(seed, rest).map_values(f);
        let s0 = state_after(seed, rest);
        match events.last() {
            BufferEvent::Take => {
                assert(h =~= h0.push(s0.inserted));
                assert(h.drop_last() =~= h0);
                assert(flat(h) + s.inserted =~= flat(h0) + s0.inserted);
            },
            BufferEvent::Insert { samples, .. } => {
                assert(h =~= h0);
                assert(flat(h) + s.inserted =~= (flat(h0) + s0.inserted) + samples);
            },
        }
    }
}

proof fn lemma_has_series_join(a: Seq<SampleView>, b: Seq<SampleView>, id: i64)
    ensures
        has_series(a + b, id) <==> has_series(a, id) || has_series(b, id),
{
    let t = a + b;
    if has_series(a, id) {
        let i = choose|i: int| 0 <= i < a.len() && (#[trigger] a[i]).series_id == id;
        assert(t[i].series_id == id);
    }
    if has_series(b, id) {
        let i = choose|i: int| 0 <= i < b.len() && (#[trigger] b[i]).series_id == id;
        assert(t[a.len() + i].series_id == id);
    }
    if has_series(t, id) {
        let i = choose|i: int| 0 <= i < t.len() && (#[trigger] t[i]).series_id == id;
        if i < a.len() {
            assert(a[i].series_id == id);
        } else {
            assert(b[i - a.len()].series_id == id);
        }
    }
}

/// What is known or held of a series was known from the start or inserted.
proof fn lemma_seen(seed: Set<i64>, events: Seq<BufferEvent>, id: i64)
    ensures
        state_after(seed, events).known.contains(id) ==> seed.contains(id) || has_series(
            inserted_by(events),
            id,
        ),
        has_series(state_after(seed, events).inserted, id) ==> has_series(inserted_by(events), id),
    decreases events.len(),
{
    if events.len() > 0 {
        let rest = events.drop_last();
        lemma_seen(seed, rest, id);
        match events.last() {
            BufferEvent::Take => {},
            BufferEvent::Insert { samples, .. } => {
                lemma_has_series_join(inserted_by(rest), samples, id);
                lemma_has_series_join(state_after(seed, rest).inserted, samples, id);
            },
        }
    }
}

/// Inserts add to what a buffer holds, and to nothing else.
proof fn lemma_inserts_only(seed: Set<i64>, before: Seq<BufferEvent>, more: Seq<BufferEvent>, id: i64)
    requires
        forall|i: int| 0 <= i < more.len() ==> (#[trigger] more[i]) is Insert,
        has_series(state_after(seed, before).inserted, id),
    ensures
        state_after(seed, before + more).known == state_after(seed, before).known,
        has_series(state_after(seed, before + more).inserted, id),
    decreases more.len(),
{
    let all = before + more;
    if more.len() == 0 {
        assert(all =~= before);
    } else {
        let rest = more.drop_last();
        assert forall|i: int| 0 <= i < rest.len() implies (#[trigger] rest[i]) is Insert by {
            assert(rest[i] == more[i]);
        }
        lemma_inserts_only(seed, before, rest, id);
        assert(all.drop_last() =~= before + rest);
        assert(all.last() == more[more.len() - 1]);
        lemma_has_series_join(
            state_after(seed, before + rest).inserted,
            all.last()->samples,
            id,
        );
    }
}

/// A series that is seen for the first time is among the new series of the next
/// snapshot, however many inserts come between.
pub proof fn law_first_sight_is_catalogued(
    seed: Set<i64>,
    before: Seq<BufferEvent>,
    record_seq: u64,
    samples: Seq<SampleView>,
    between: Seq<BufferEvent>,
    snap: Snapshot,
    id: i64,
)
    requires
        !seed.contains(id),
        !has_series(inserted_by(before), id),
        has_series(samples, id),
        forall|i: int| 0 <= i < between.len() ==> (#[trigger] between[i]) is Insert,
        snap.is_of(
            state_after(
                seed,
                before.push(BufferEvent::Insert { record_seq, samples }) + between,
            ),
        ),
    ensures
        snap.new_series@.dom().contains(id),
{
    let e = BufferEvent::Insert { record_seq, samples };
    let first = before.push(e);
    lemma_seen(seed, before, id);
    assert(first.drop_last() =~= before);
    lemma_has_series_join(state_after(seed, before).inserted, samples, id);
    lemma_inserts_only(seed, first, between, id);
}

/// The points that a day map has for a series on a day, none where it has not.
pub open spec fn points_in(by_day: DayMap, day: i32, id: i64) -> Seq<(i64, u64)> {
    if filled(by_day).contains((day, id)) {
        by_day[day]@[id]@
    } else {
        Seq::empty()
    }
}

proof fn lemma_points_in(by_day: DayMap, s: Seq<SampleView>, day: i32, id: i64)
    requires
        holds(by_day, s),
    ensures
        points_in(by_day, day, id) == points_of(s, day, id),
{
    lemma_points_day(s, day, id);
    if filled(by_day).contains((day, id)) {
        assert(by_day[day]@[id]@ == points_of(s, day, id));
    } else {
        assert(by_day.dom().contains(day) <==> has_day(s, day));
        assert(points_of(s, day, id).len() == 0);
        assert(points_of(s, day, id) =~= Seq::empty());
    }
}

proof fn lemma_points_join(a: Seq<SampleView>, b: Seq<SampleView>, day: i32, id: i64)
    ensures
        points_of(a + b, day, id) == points_of(a, day, id) + points_of(b, day, id),
{
    assert(filed(a + b) =~= filed(a) + filed(b));
    lemma_items_under_join(filed(a), filed(b), (day, id));
}

/// The points of lists of samples, one list after another.
proof fn lemma_points_flat(lists: Seq<Seq<SampleView>>, day: i32, id: i64)
    ensures
        points_of(flat(lists), day, id) == flat(
            lists.map_values(|s: Seq<SampleView>| points_of(s, day, id)),
        ),
    decreases lists.len(),
{
    let f = |s: Seq<SampleView>| points_of(s, day, id);
    if lists.len() == 0 {
        assert(filed(flat(lists)) =~= Seq::empty());
        assert(points_of(flat(lists), day, id) =~= flat(lists.map_values(f)));
    } else {
        let rest = lists.drop_last();
        lemma_points_flat(rest, day, id);
        lemma_points_join(flat(rest), lists.last(), day, id);
        assert(lists.map_values(f).drop_last() =~= rest.map_values(f));
        assert(lists.map_values(f).last() == f(lists.last()));
    }
}

/// Every sample is handed out once: of each series on each day, the snapshots
/// have, one after another, just the points that were inserted before the last
/// `take`, in the order they came.
pub proof fn law_samples_are_handed_out_once(
    seed: Set<i64>,
    events: Seq<BufferEvent>,
    snaps: Seq<Snapshot>,
    day: i32,
    id: i64,
)
    requires
        events.len() > 0,
        events.last() is Take,
        are_snapshots(snaps, seed, events),
    ensures
        flat(snaps.map_values(|s: Snapshot| points_in(s.by_day@, day, id))) == points_of(
            inserted_by(events),
            day,
            id,
        ),
{
    let b = handed_out(seed, events);
    let lists = b.map_values(|v: BufferView| v.inserted);
    let f = |s: Seq<SampleView>| points_of(s, day, id);
    lemma_handed_out_or_held(seed, events);
    assert(flat(lists) + state_after(seed, events).inserted =~= flat(lists));
    lemma_points_flat(lists, day, id);
    let shown = snaps.map_values(|s: Snapshot| points_in(s.by_day@, day, id));
    assert forall|k: int| 0 <= k < shown.len() implies #[trigger] shown[k] == lists.map_values(
        f,
    )[k] by {
        assert(snaps[k].is_of(b[k]));
        lemma_points_in(snaps[k].by_day@, b[k].inserted, day, id);
    }
    assert(shown =~= lists.map_values(f));
}

} // verus!
