//! What a flush writes: the rows of a `Snapshot` for the two tables.
//!
//! Two writes per flush, each its own commit:
//!
//! 1. **samples**, one file per day.
//! 2. **series**, only if there are new series to register.
//!
//! If the first fails the second is not attempted. The snapshot is taken from
//! the buffer before either write, so running the failed half again does not
//! write twice what already landed.

use std::collections::BTreeMap;

use vstd::prelude::*;
use vstd::std_specs::btree::increasing_seq;
use vstd::std_specs::cmp::OrdSpec;
use vstd::std_specs::iter::IteratorSpec;
use crate::ingest::buffer::{points_of, BufferView, NewSeriesEntry, Snapshot};
use crate::ordered::{
    in_key_order, items_under, keyed, lemma_items_under_empty, lemma_items_under_join,
    sort_by_key, stably_sorted, SortKey,
};
use crate::text::{push_signed, signed_decimal};

verus! {

/// Outcome of a single flush.
#[derive(Debug, Clone, Copy)]
pub struct FlushResult {
    pub samples_files: usize,
    pub samples_rows: usize,
    pub series_rows: usize,
    pub max_record_seq: u64,
}

impl Default for FlushResult {
    fn default() -> (r: FlushResult)
        ensures
            r == (FlushResult {
                samples_files: 0,
                samples_rows: 0,
                series_rows: 0,
                max_record_seq: 0,
            }),
    {
        FlushResult { samples_files: 0, samples_rows: 0, series_rows: 0, max_record_seq: 0 }
    }
}

/// Which of the two tables a flush writes to.
#[derive(Debug, Clone, Copy, PartialEq, Eq, Structural)]
pub struct FlushPlan {
    pub samples: bool,
    pub series: bool,
}

/// Which tables a snapshot has rows for. Samples are written first, and series
/// only once that has succeeded.
pub fn plan_flush(snap: &Snapshot) -> (r: FlushPlan)
    ensures
        r.samples == !snap.by_day@.dom().is_empty(),
        r.series == !snap.new_series@.dom().is_empty(),
{
    FlushPlan { samples: !snap.by_day.is_empty(), series: !snap.new_series.is_empty() }
}

/// What a flush reports once both writes have landed, `samples_files` being the
/// number of sample files written (0 where there were no samples).
pub fn flush_result(snap: &Snapshot, samples_files: usize) -> (r: FlushResult)
    ensures
        r.samples_files == samples_files,
        r.samples_rows == snap.sample_count,
        r.series_rows == snap.new_series@.dom().len(),
        r.max_record_seq == snap.max_record_seq,
{
    FlushResult {
        samples_files,
        samples_rows: snap.sample_count,
        series_rows: snap.new_series.len(),
        max_record_seq: snap.max_record_seq,
    }
}

/// The metadata entry that carries a column's field id in Parquet.
pub fn field_id_metadata(id: i32) -> (r: (String, String))
    ensures
        r.0@ == "PARQUET:field_id"@,
        r.1@ == signed_decimal(id as int),
{
    let mut v = String::new();
    push_signed(&mut v, id as i64);
    assert(v@ =~= signed_decimal(id as int));
    ("PARQUET:field_id".to_string(), v)
}

/// Rows of the samples table, by column.
#[derive(Debug)]
pub struct SampleColumns {
    pub series_ids: Vec<i64>,
    pub timestamps: Vec<i64>,
    pub values: Vec<u64>,
}

impl SampleColumns {
    /// The rows, each as its series id and its point.
    pub open spec fn rows(self) -> Seq<(i64, (i64, u64))> {
        Seq::new(
            self.series_ids@.len(),
            |i: int| (self.series_ids@[i], (self.timestamps@[i], self.values@[i])),
        )
    }

    /// The columns are equally long.
    pub open spec fn wf(self) -> bool {
        &&& self.timestamps@.len() == self.series_ids@.len()
        &&& self.values@.len() == self.series_ids@.len()
    }
}

/// The rows are those of `by_series`: series by series in id order, and each
/// series' points by timestamp, points of one timestamp in the order they came.
pub open spec fn rows_of(
    by_series: Map<i64, Vec<(i64, u64)>>,
    rows: Seq<(i64, (i64, u64))>,
) -> bool {
    &&& in_key_order::<i64, (i64, u64)>(rows)
    &&& forall|id: i64|
        by_series.dom().contains(id) ==> #[trigger] stably_sorted::<i64, u64>(
            by_series[id]@,
            items_under(rows, id),
        )
    &&& forall|id: i64|
        !by_series.dom().contains(id) ==> #[trigger] items_under(rows, id).len() == 0
}

/// A map's entries are those of the list, from the lowest key to the highest.
pub open spec fn lists<V>(list: Seq<(i64, &V)>, m: Map<i64, V>) -> bool {
    &&& list.len() == m.dom().len()
    &&& forall|i: int, j: int|
        0 <= i < j < list.len() ==> (#[trigger] list[i]).0 < (#[trigger] list[j]).0
    &&& forall|i: int|
        0 <= i < list.len() ==> m.dom().contains((#[trigger] list[i]).0) && m[list[i].0]
            == *list[i].1
    &&& forall|k: i64| #[trigger]
        m.dom().contains(k) ==> exists|i: int| 0 <= i < list.len() && (#[trigger] list[i]).0 == k
}

proof fn lemma_increasing(keys: Seq<i64>)
    requires
        increasing_seq(keys),
    ensures
        forall|i: int, j: int| 0 <= i < j < keys.len() ==> #[trigger] keys[i] < #[trigger] keys[j],
{
    assert forall|i: int, j: int| 0 <= i < j < keys.len() implies #[trigger] keys[i]
        < #[trigger] keys[j] by {
        assert(keys[i].cmp_spec(&keys[j]) is Less);
    }
}

/// The entries of a map, from the lowest key to the highest.
fn entries_of<'a, V>(m: &'a BTreeMap<i64, V>) -> (r: Vec<(i64, &'a V)>)
    ensures
        lists(r@, m@),
{
    let mut r: Vec<(i64, &'a V)> = Vec::new();
    let ghost all = m.iter().remaining();
    for entry in it: m.iter()
        invariant
            it.seq() == all,
            all == m.iter().remaining(),
            increasing_seq(all.map_values(|kv: (&i64, &V)| *kv.0)),
            r@.len() == it.index(),
            forall|i: int|
                0 <= i < r@.len() ==> (#[trigger] r@[i]).0 == *all[i].0 && r@[i].1 == all[i].1,
    {
        r.push((*entry.0, entry.1));
    }
    proof {
        let keys = all.map_values(|kv: (&i64, &V)| *kv.0);
        lemma_increasing(keys);
        assert forall|i: int, j: int| 0 <= i < j < r@.len() implies (#[trigger] r@[i]).0 < (
        #[trigger] r@[j]).0 by {
            assert(keys[i] < keys[j]);
        }
        assert forall|i: int| 0 <= i < r@.len() implies m@.dom().contains((#[trigger] r@[i]).0)
            && m@[r@[i].0] == *r@[i].1 by {
            assert(m@.contains_key(*all[i].0));
        }
        assert forall|k: i64| #[trigger] m@.dom().contains(k) implies exists|i: int|
            0 <= i < r@.len() && (#[trigger] r@[i]).0 == k by {
            assert(m@.contains_key(k));
            assert(all.contains((&k, &m@[k])));
            let i = choose|i: int| 0 <= i < all.len() && all[i] == (&k, &m@[k]);
            assert(r@[i].0 == k);
        }
    }
    r
}

/// The rows of one series' points.
pub open spec fn series_rows(id: i64, points: Seq<(i64, u64)>) -> Seq<(i64, (i64, u64))> {
    points.map_values(|p: (i64, u64)| (id, p))
}

proof fn lemma_items_of_one(id: i64, points: Seq<(i64, u64)>, k: i64)
    ensures
        items_under(series_rows(id, points), k) == if k == id {
            points
        } else {
            Seq::empty()
        },
    decreases points.len(),
{
    let rows = series_rows(id, points);
    if points.len() > 0 {
        let p = points.drop_last();
        assert(rows.drop_last() =~= series_rows(id, p));
        lemma_items_of_one(id, p, k);
        assert(rows.last() == (id, points.last()));
    }
    if k == id {
        assert(items_under(rows, k) =~= points);
    }
}

impl SampleColumns {
    fn push_series(&mut self, id: i64, points: &Vec<(i64, u64)>)
        requires
            old(self).wf(),
        ensures
            final(self).wf(),
            final(self).rows() == old(self).rows() + series_rows(id, points@),
    {
        let n: usize = points.len();
        let mut i: usize = 0;
        assert(self.rows() =~= old(self).rows() + series_rows(id, points@.take(0)));
        while i < n
            invariant
                n == points@.len(),
                i <= n,
                self.wf(),
                self.rows() == old(self).rows() + series_rows(id, points@.take(i as int)),
            decreases n - i,
        {
            let ghost before = self.rows();
            self.series_ids.push(id);
            self.timestamps.push(points[i].0);
            self.values.push(points[i].1);
            i += 1;
            proof {
                let p = points@[i as int - 1];
                assert(self.rows() =~= before.push((id, p)));
                assert(points@.take(i as int) =~= points@.take(i as int - 1).push(p));
                assert(series_rows(id, points@.take(i as int)) =~= series_rows(
                    id,
                    points@.take(i as int - 1),
                ).push((id, p)));
                assert(self.rows() =~= old(self).rows() + series_rows(
                    id,
                    points@.take(i as int),
                ));
            }
        }
        assert(points@.take(n as int) =~= points@);
    }
}

/// The rows of one day for the samples table.
pub fn build_samples_batch(by_series: &BTreeMap<i64, Vec<(i64, u64)>>) -> (r: SampleColumns)
    ensures
        r.wf(),
        rows_of(by_series@, r.rows()),
{
    let entries = entries_of(by_series);
    let mut out = SampleColumns {
        series_ids: Vec::new(),
        timestamps: Vec::new(),
        values: Vec::new(),
    };
    assert(out.rows() =~= Seq::empty());
    let mut i: usize = 0;
    while i < entries.len()
        invariant
            lists(entries@, by_series@),
            i <= entries@.len(),
            out.wf(),
            in_key_order::<i64, (i64, u64)>(out.rows()),
            forall|a: int|
                0 <= a < out.rows().len() ==> ((#[trigger] out.rows()[a]).0 < entries@[i as int].0
                    || i == entries@.len()),
            forall|j: int|
                0 <= j < i ==> stably_sorted::<i64, u64>(
                    (*(#[trigger] entries@[j]).1)@,
                    items_under(out.rows(), entries@[j].0),
                ),
            forall|k: i64|
                !by_series@.dom().contains(k) ==> #[trigger] items_under(out.rows(), k).len() == 0,
        decreases entries@.len() - i,
    {
        let id: i64 = entries[i].0;
        let ghost rows0 = out.rows();
        let mut copy: Vec<(i64, u64)> = Vec::new();
        copy_points(entries[i].1, &mut copy);
        let ghost given = copy@;
        assert(given =~= (*entries@[i as int].1)@);
        let sorted = sort_by_key(copy);
        out.push_series(id, &sorted);
        proof {
            assert(keyed(sorted@) =~= sorted@);
            assert(keyed(given) =~= given);
            let added = series_rows(id, sorted@);
            let rows1 = out.rows();
            assert forall|k: i64| #[trigger] items_under(rows1, k) == if k == id {
                sorted@
            } else {
                items_under(rows0, k)
            } by {
                lemma_items_under_join(rows0, added, k);
                lemma_items_of_one(id, sorted@, k);
                if k == id {
                    lemma_items_under_empty(rows0, k);
                    assert(items_under(rows1, k) =~= sorted@);
                } else {
                    assert(items_under(rows1, k) =~= items_under(rows0, k));
                }
            }
            assert forall|a: int, b: int| 0 <= a < b < rows1.len() implies !i64::before(
                (#[trigger] rows1[b]).0,
                (#[trigger] rows1[a]).0,
            ) by {
                if b < rows0.len() {
                    assert(!i64::before(rows0[b].0, rows0[a].0));
                } else if a < rows0.len() {
                    assert(rows0[a].0 < id);
                }
            }
        }
        i += 1;
        proof {
            assert forall|a: int| 0 <= a < out.rows().len() implies ((#[trigger] out.rows()[a]).0
                < entries@[i as int].0 || i == entries@.len()) by {
                if i < entries@.len() {
                    assert(entries@[i as int - 1].0 < entries@[i as int].0);
                    if a < rows0.len() {
                        assert(rows0[a].0 < id);
                    }
                }
            }
        }
    }
    proof {
        assert forall|id: i64| by_series@.dom().contains(id) implies #[trigger] stably_sorted::<
            i64,
            u64,
        >(by_series@[id]@, items_under(out.rows(), id)) by {
            let j = choose|j: int| 0 <= j < entries@.len() && (#[trigger] entries@[j]).0 == id;
            assert(by_series@[entries@[j].0] == *entries@[j].1);
        }
    }
    out
}

/// The rows of the series table for the new series of a snapshot: their
/// entries, in the order of their ids.
pub fn build_series_batch<'a>(new_series: &'a BTreeMap<i64, NewSeriesEntry>) -> (r: Vec<
    (i64, &'a NewSeriesEntry),
>)
    ensures
        lists(r@, new_series@),
{
    entries_of(new_series)
}

/// What a flush writes for a series on a day are the samples of it that were
/// inserted, by time, samples of one time in the order they came.
pub proof fn law_flush_writes_what_was_inserted(
    snap: Snapshot,
    b: BufferView,
    day: i32,
    rows: Seq<(i64, (i64, u64))>,
    id: i64,
)
    requires
        snap.is_of(b),
        snap.by_day@.dom().contains(day),
        rows_of(snap.by_day@[day]@, rows),
    ensures
        stably_sorted::<i64, u64>(points_of(b.inserted, day, id), items_under(rows, id)),
{
    let by_series = snap.by_day@[day]@;
    if by_series.dom().contains(id) {
        assert(by_series[id]@ == points_of(b.inserted, day, id));
    } else {
        assert(points_of(b.inserted, day, id) =~= Seq::empty());
        assert(items_under(rows, id) =~= Seq::empty());
    }
}

fn copy_points(points: &Vec<(i64, u64)>, out: &mut Vec<(i64, u64)>)
    ensures
        final(out)@ == old(out)@ + points@,
{
    let n: usize = points.len();
    let mut i: usize = 0;
    while i < n
        invariant
            n == points@.len(),
            i <= n,
            out@ == old(out)@ + points@.take(i as int),
        decreases n - i,
    {
        out.push(points[i]);
        i += 1;
        assert(out@ =~= old(out)@ + points@.take(i as int));
    }
    assert(points@.take(n as int) =~= points@);
}

} // verus!
