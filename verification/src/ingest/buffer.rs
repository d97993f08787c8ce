//! In-memory accumulator between log append and flush.
//!
//! Samples are filed by day, so that a flush writes one file per day, and
//! within a day by series. A series' points are not sorted on insert; the flush
//! sorts them before it writes.
//!
//! The buffer keeps the set of series ids it has been told about, either seeded
//! at startup or promoted when their catalog row was handed out. The first time
//! an unknown id arrives, the buffer remembers its metric and labels in
//! `new_series`, so that the flush can write a catalog row for it.
//!
//! `take` is the swap-out: the day map and the new series move to the caller,
//! the buffer is reset, and the ids handed out become known, so that later
//! inserts do not hand them out again.

use std::collections::{BTreeMap, HashSet};

use vstd::prelude::*;
use crate::calendar::{day_of, day_of_us};
use crate::ingest::types::ValidatedSample;
use crate::labels::{Labels, Pairs};
use crate::ordered::{items_under, lemma_items_under_empty};

verus! {

/// Memory cost of one sample, as far as the size-based flush trigger goes.
pub const BYTES_PER_SAMPLE: usize = 32;

/// A series whose catalog row is still to be written.
#[derive(Debug)]
pub struct NewSeriesEntry {
    pub series_id: i64,
    pub metric: String,
    pub labels: Labels,
}

/// The view of a `ValidatedSample`.
#[verifier::ext_equal]
pub struct SampleView {
    pub series_id: i64,
    pub metric: Seq<char>,
    pub labels: Pairs,
    pub ts_us: i64,
    pub value: u64,
}

impl View for ValidatedSample {
    type V = SampleView;

    open spec fn view(&self) -> SampleView {
        SampleView {
            series_id: self.series_id,
            metric: self.metric@,
            labels: self.labels@,
            ts_us: self.ts_us,
            value: self.value,
        }
    }
}

/// The views of a list of samples.
pub open spec fn sample_views(s: Seq<ValidatedSample>) -> Seq<SampleView> {
    s.map_values(|x: ValidatedSample| x@)
}

/// Where a sample is filed, and as which point.
pub open spec fn filed(s: Seq<SampleView>) -> Seq<((i32, i64), (i64, u64))> {
    s.map_values(|x: SampleView| ((day_of(x.ts_us) as i32, x.series_id), (x.ts_us, x.value)))
}

/// The points of one series on one day, in the order they came.
pub open spec fn points_of(s: Seq<SampleView>, day: i32, series_id: i64) -> Seq<(i64, u64)> {
    items_under(filed(s), (day, series_id))
}

/// Whether a sample fell on that day.
pub open spec fn has_day(s: Seq<SampleView>, day: i32) -> bool {
    exists|i: int| 0 <= i < s.len() && day_of((#[trigger] s[i]).ts_us) == day
}

/// Whether a sample belongs to that series.
pub open spec fn has_series(s: Seq<SampleView>, series_id: i64) -> bool {
    exists|i: int| 0 <= i < s.len() && (#[trigger] s[i]).series_id == series_id
}

/// The ids of the series that occur.
pub open spec fn series_ids(s: Seq<SampleView>) -> Set<i64> {
    Set::new(|id: i64| has_series(s, id))
}

/// The first sample of a series.
pub open spec fn first_of(s: Seq<SampleView>, series_id: i64) -> SampleView
    decreases s.len(),
{
    if s.len() == 0 {
        arbitrary()
    } else if has_series(s.drop_last(), series_id) {
        first_of(s.drop_last(), series_id)
    } else {
        s.last()
    }
}

/// Points by series by day.
pub type DayMap = Map<i32, BTreeMap<i64, Vec<(i64, u64)>>>;

/// The day map holds these samples and nothing else: a day is there exactly if
/// a sample fell on it, a series exactly if it has a sample that day, and its
/// points are that day's, in the order they came.
pub open spec fn holds(by_day: DayMap, s: Seq<SampleView>) -> bool {
    &&& forall|day: i32| #[trigger] by_day.dom().contains(day) <==> has_day(s, day)
    &&& forall|day: i32, id: i64|
        by_day.dom().contains(day) ==> (#[trigger] by_day[day]@.dom().contains(id) <==> points_of(
            s,
            day,
            id,
        ).len() > 0)
    &&& forall|day: i32, id: i64|
        by_day.dom().contains(day) && by_day[day]@.dom().contains(id) ==> (
        #[trigger] by_day[day]@[id])@ == points_of(s, day, id)
}

/// The new series are those of the samples whose ids are not known, each with
/// the metric and labels of its first sample.
pub open spec fn catalogs(
    new_series: Map<i64, NewSeriesEntry>,
    s: Seq<SampleView>,
    known: Set<i64>,
) -> bool {
    &&& forall|id: i64|
        #[trigger] new_series.dom().contains(id) <==> has_series(s, id) && !known.contains(id)
    &&& forall|id: i64|
        new_series.dom().contains(id) ==> {
            &&& (#[trigger] new_series[id]).series_id == id
            &&& new_series[id].metric@ == first_of(s, id).metric
            &&& new_series[id].labels@ == first_of(s, id).labels
        }
}

/// What a buffer holds: the samples inserted since the last `take`, the ids of
/// the series that need no catalog row, and the highest log record among the
/// samples.
#[verifier::ext_equal]
pub struct BufferView {
    pub inserted: Seq<SampleView>,
    pub known: Set<i64>,
    pub max_record_seq: u64,
}

/// What is done to a buffer.
pub enum BufferEvent {
    /// `insert_batch`.
    Insert { record_seq: u64, samples: Seq<SampleView> },
    /// `take`.
    Take,
}

/// What a buffer holds after an event.
pub open spec fn after_event(b: BufferView, e: BufferEvent) -> BufferView {
    match e {
        BufferEvent::Insert { record_seq, samples } => BufferView {
            inserted: b.inserted + samples,
            known: b.known,
            max_record_seq: if record_seq > b.max_record_seq {
                record_seq
            } else {
                b.max_record_seq
            },
        },
        BufferEvent::Take => BufferView {
            inserted: Seq::empty(),
            known: b.known.union(series_ids(b.inserted)),
            max_record_seq: 0,
        },
    }
}

/// The accumulator.
pub struct Buffer {
    by_day: BTreeMap<i32, BTreeMap<i64, Vec<(i64, u64)>>>,
    new_series: BTreeMap<i64, NewSeriesEntry>,
    known_series: HashSet<i64>,
    bytes_estimate: usize,
    sample_count: usize,
    max_record_seq: u64,
    inserted: Ghost<Seq<SampleView>>,
}

/// Result of `Buffer::take`. Owned data, safe to hand to a flush that runs
/// without holding the buffer.
#[derive(Debug)]
pub struct Snapshot {
    pub by_day: BTreeMap<i32, BTreeMap<i64, Vec<(i64, u64)>>>,
    pub new_series: BTreeMap<i64, NewSeriesEntry>,
    pub bytes_estimate: usize,
    pub sample_count: usize,
    /// Largest log record represented in this snapshot. Once the snapshot is
    /// persisted, the log can be truncated through it.
    pub max_record_seq: u64,
}

impl Snapshot {
    /// The snapshot is what this buffer held.
    pub open spec fn is_of(self, b: BufferView) -> bool {
        &&& holds(self.by_day@, b.inserted)
        &&& catalogs(self.new_series@, b.inserted, b.known)
        &&& self.sample_count == b.inserted.len()
        &&& self.bytes_estimate == b.inserted.len() * BYTES_PER_SAMPLE
        &&& self.max_record_seq == b.max_record_seq
    }
}

impl View for Buffer {
    type V = BufferView;

    closed spec fn view(&self) -> BufferView {
        BufferView {
            inserted: self.inserted@,
            known: self.known_series@,
            max_record_seq: self.max_record_seq,
        }
    }
}

proof fn lemma_filed_push(s: Seq<SampleView>, x: SampleView)
    ensures
        filed(s.push(x)) == filed(s).push(
            ((day_of(x.ts_us) as i32, x.series_id), (x.ts_us, x.value)),
        ),
        forall|day: i32, id: i64|
            #[trigger] points_of(s.push(x), day, id) == if day == day_of(x.ts_us) as i32 && id
                == x.series_id {
                points_of(s, day, id).push((x.ts_us, x.value))
            } else {
                points_of(s, day, id)
            },
        forall|day: i32|
            #[trigger] has_day(s.push(x), day) <==> has_day(s, day) || day == day_of(x.ts_us),
        forall|id: i64|
            #[trigger] has_series(s.push(x), id) <==> has_series(s, id) || id == x.series_id,
        forall|id: i64|
            has_series(s, id) ==> #[trigger] first_of(s.push(x), id) == first_of(s, id),
        forall|id: i64| !has_series(s, id) ==> #[trigger] first_of(s.push(x), id) == x,
{
    let t = s.push(x);
    assert(t.drop_last() =~= s);
    assert(filed(t) =~= filed(s).push(
        ((day_of(x.ts_us) as i32, x.series_id), (x.ts_us, x.value)),
    ));
    assert(filed(t).drop_last() =~= filed(s));
    assert forall|day: i32| #[trigger] has_day(t, day) <==> has_day(s, day) || day == day_of(
        x.ts_us,
    ) by {
        if has_day(s, day) {
            let i = choose|i: int| 0 <= i < s.len() && day_of((#[trigger] s[i]).ts_us) == day;
            assert(t[i] == s[i]);
        }
        if day == day_of(x.ts_us) {
            assert(t[s.len() as int] == x);
        }
        if has_day(t, day) {
            let i = choose|i: int| 0 <= i < t.len() && day_of((#[trigger] t[i]).ts_us) == day;
            if i < s.len() {
                assert(s[i] == t[i]);
            }
        }
    }
    assert forall|id: i64| #[trigger] has_series(t, id) <==> has_series(s, id) || id
        == x.series_id by {
        if has_series(s, id) {
            let i = choose|i: int| 0 <= i < s.len() && (#[trigger] s[i]).series_id == id;
            assert(t[i] == s[i]);
        }
        if id == x.series_id {
            assert(t[s.len() as int] == x);
        }
        if has_series(t, id) {
            let i = choose|i: int| 0 <= i < t.len() && (#[trigger] t[i]).series_id == id;
            if i < s.len() {
                assert(s[i] == t[i]);
            }
        }
    }
}

/// A series with points on a day has a sample, on that day.
pub proof fn lemma_points_day(s: Seq<SampleView>, day: i32, id: i64)
    ensures
        points_of(s, day, id).len() > 0 ==> has_day(s, day) && has_series(s, id),
{
    if points_of(s, day, id).len() > 0 {
        lemma_items_under_empty(filed(s), (day, id));
        let i = choose|i: int|
            0 <= i < filed(s).len() && (#[trigger] filed(s)[i]).0 == (day, id);
        assert(filed(s)[i].0 == (day_of(s[i].ts_us) as i32, s[i].series_id));
        lemma_day_fits(s[i].ts_us);
        assert(day_of(s[i].ts_us) == day);
        assert(s[i].series_id == id);
    }
}

proof fn lemma_take_to_set(s: Seq<i64>, n: int)
    requires
        0 <= n < s.len(),
    ensures
        s.take(n + 1).to_set() == s.take(n).to_set().insert(s[n]),
{
    let a = s.take(n);
    let b = s.take(n + 1);
    assert(b =~= a.push(s[n]));
    assert forall|x: i64| b.to_set().contains(x) == a.to_set().insert(s[n]).contains(x) by {
        if a.contains(x) {
            let w = choose|w: int| 0 <= w < a.len() && a[w] == x;
            assert(b[w] == x);
        }
        if x == s[n] {
            assert(b[n] == x);
        }
    }
    assert(b.to_set() =~= a.to_set().insert(s[n]));
}

/// Days are counted in 32 bits.
pub proof fn lemma_day_fits(ts_us: i64)
    ensures
        i32::MIN <= day_of(ts_us) <= i32::MAX,
{
}

impl Buffer {
    #[verifier::type_invariant]
    spec fn consistent(self) -> bool {
        &&& holds(self.by_day@, self.inserted@)
        &&& catalogs(self.new_series@, self.inserted@, self.known_series@)
        &&& self.sample_count == self.inserted@.len()
        &&& self.bytes_estimate == self.inserted@.len() * BYTES_PER_SAMPLE
    }

    /// An empty buffer that knows no series.
    pub fn new() -> (r: Buffer)
        ensures
            r@.inserted == Seq::<SampleView>::empty(),
            r@.known == Set::<i64>::empty(),
            r@.max_record_seq == 0,
    {
        let seed: Vec<i64> = Vec::new();
        let r = Self::with_known_series(&seed);
        assert(r@.known =~= Set::<i64>::empty());
        r
    }

    /// An empty buffer that knows the series of a catalog read at startup.
    pub fn with_known_series(seed: &Vec<i64>) -> (r: Buffer)
        ensures
            r@.inserted == Seq::<SampleView>::empty(),
            r@.known == seed@.to_set(),
            r@.max_record_seq == 0,
    {
        let mut known: HashSet<i64> = HashSet::new();
        let mut i: usize = 0;
        assert(seed@.take(0).to_set() =~= Set::<i64>::empty());
        while i < seed.len()
            invariant
                i <= seed@.len(),
                known@ == seed@.take(i as int).to_set(),
            decreases seed@.len() - i,
        {
            known.insert(seed[i]);
            i += 1;
            proof {
                lemma_take_to_set(seed@, i as int - 1);
            }
        }
        assert(seed@.take(i as int) =~= seed@);
        let by_day: BTreeMap<i32, BTreeMap<i64, Vec<(i64, u64)>>> = BTreeMap::new();
        let new_series: BTreeMap<i64, NewSeriesEntry> = BTreeMap::new();
        Buffer {
            by_day,
            new_series,
            known_series: known,
            bytes_estimate: 0,
            sample_count: 0,
            max_record_seq: 0,
            inserted: Ghost(Seq::empty()),
        }
    }

    /// Insert a batch of samples that came from a single log record.
    /// `record_seq` becomes a candidate for `max_record_seq`.
    pub fn insert_batch(&mut self, record_seq: u64, samples: Vec<ValidatedSample>)
        requires
            (old(self)@.inserted.len() + samples@.len()) * BYTES_PER_SAMPLE <= usize::MAX,
        ensures
            final(self)@ == after_event(
                old(self)@,
                BufferEvent::Insert { record_seq, samples: sample_views(samples@) },
            ),
    {
        proof {
            use_type_invariant(&*self);
        }
        if record_seq > self.max_record_seq {
            self.max_record_seq = record_seq;
        }
        let ghost max = self@.max_record_seq;
        let ghost views = sample_views(samples@);
        assert(self@.inserted =~= old(self)@.inserted + views.take(0));
        for s in it: samples
            invariant
                it.seq() == samples@,
                views == sample_views(samples@),
                (old(self)@.inserted.len() + samples@.len()) * BYTES_PER_SAMPLE <= usize::MAX,
                self@.inserted == old(self)@.inserted + views.take(it.index() as int),
                self@.known == old(self)@.known,
                self@.max_record_seq == max,
                views.take(views.len() as int) =~= views,
        {
            self.insert_one(s);
            assert(self@.inserted =~= old(self)@.inserted + views.take(it.index() as int + 1));
        }
    }

    fn insert_one(&mut self, s: ValidatedSample)
        requires
            (old(self)@.inserted.len() + 1) * BYTES_PER_SAMPLE <= usize::MAX,
        ensures
            final(self)@.inserted == old(self)@.inserted.push(s@),
            final(self)@.known == old(self)@.known,
            final(self)@.max_record_seq == old(self)@.max_record_seq,
    {
        proof {
            use_type_invariant(&*self);
            lemma_filed_push(self.inserted@, s@);
            lemma_day_fits(s.ts_us);
        }
        let ghost before = self.inserted@;
        let ghost after = before.push(s@);
        let ghost known = self.known_series@;
        let day: i32 = day_of_us(s.ts_us);
        let series_id: i64 = s.series_id;
        let ts_us: i64 = s.ts_us;
        let value: u64 = s.value;

        let mut fresh = Buffer::new();
        std::mem::swap(self, &mut fresh);
        let Buffer {
            by_day,
            new_series,
            known_series,
            bytes_estimate,
            sample_count,
            max_record_seq,
            inserted: _,
        } = fresh;
        let mut by_day = by_day;
        let mut new_series = new_series;
        let ghost by_day0 = by_day@;
        let ghost new0 = new_series@;

        if !known_series.contains(&series_id) && !new_series.contains_key(&series_id) {
            new_series.insert(
                series_id,
                NewSeriesEntry { series_id, metric: s.metric, labels: s.labels },
            );
        }
        assert(catalogs(new_series@, after, known));

        let mut series_map: BTreeMap<i64, Vec<(i64, u64)>> = match by_day.remove(&day) {
            Some(m) => m,
            None => BTreeMap::new(),
        };
        let ghost series0 = series_map@;
        assert(by_day0.dom().contains(day) ==> series0 == by_day0[day]@);
        assert(!by_day0.dom().contains(day) ==> series0 =~= Map::empty());
        let mut points: Vec<(i64, u64)> = match series_map.remove(&series_id) {
            Some(v) => v,
            None => Vec::new(),
        };
        let ghost points0 = points@;
        proof {
            lemma_points_day(before, day, series_id);
            assert(points0 =~= points_of(before, day, series_id));
        }
        points.push((ts_us, value));
        series_map.insert(series_id, points);
        by_day.insert(day, series_map);
        proof {
            assert(series_map@ =~= series0.insert(series_id, points));
            assert(by_day@ =~= by_day0.insert(day, series_map));
            assert(points@ == points_of(after, day, series_id));
            assert forall|d: i32, id: i64| by_day@.dom().contains(d) implies (
            #[trigger] by_day@[d]@.dom().contains(id) <==> points_of(after, d, id).len() > 0) by {
                lemma_points_day(before, d, id);
                if d == day {
                    if by_day0.dom().contains(d) {
                        assert(by_day0[d]@.dom().contains(id) <==> points_of(before, d, id).len()
                            > 0);
                    }
                } else {
                    assert(by_day@[d] == by_day0[d]);
                }
            }
            assert forall|d: i32, id: i64|
                by_day@.dom().contains(d) && by_day@[d]@.dom().contains(id) implies (
            #[trigger] by_day@[d]@[id])@ == points_of(after, d, id) by {
                if d == day {
                    if id != series_id {
                        assert(by_day0.dom().contains(d));
                        assert(by_day0[d]@[id]@ == points_of(before, d, id));
                    }
                } else {
                    assert(by_day@[d] == by_day0[d]);
                    assert(by_day0[d]@[id]@ == points_of(before, d, id));
                }
            }
        }
        *self = Buffer {
            by_day,
            new_series,
            known_series,
            bytes_estimate: bytes_estimate + BYTES_PER_SAMPLE,
            sample_count: sample_count + 1,
            max_record_seq,
            inserted: Ghost(after),
        };
    }

    /// The estimated size of what the buffer holds.
    pub fn bytes_estimate(&self) -> (r: usize)
        ensures
            r == self@.inserted.len() * BYTES_PER_SAMPLE,
    {
        proof {
            use_type_invariant(self);
        }
        self.bytes_estimate
    }

    /// How many samples the buffer holds.
    pub fn sample_count(&self) -> (r: usize)
        ensures
            r == self@.inserted.len(),
    {
        proof {
            use_type_invariant(self);
        }
        self.sample_count
    }

    /// Whether the buffer holds no samples.
    pub fn is_empty(&self) -> (r: bool)
        ensures
            r == (self@.inserted.len() == 0),
    {
        proof {
            use_type_invariant(self);
        }
        self.sample_count == 0
    }

    /// The highest log record among the samples held.
    pub fn max_record_seq(&self) -> (r: u64)
        ensures
            r == self@.max_record_seq,
    {
        self.max_record_seq
    }

    /// Take what the buffer holds and reset it. The ids of the new series handed
    /// out become known, so that later inserts do not hand them out again;
    /// persisting them is up to the caller.
    pub fn take(&mut self) -> (r: Snapshot)
        ensures
            r.is_of(old(self)@),
            final(self)@ == after_event(old(self)@, BufferEvent::Take),
    {
        proof {
            use_type_invariant(&*self);
        }
        let mut fresh = Buffer::new();
        std::mem::swap(self, &mut fresh);
        let Buffer {
            by_day,
            new_series,
            known_series,
            bytes_estimate,
            sample_count,
            max_record_seq,
            inserted: _,
        } = fresh;
        let mut known = known_series;
        let ghost known0 = known@;
        assert(known0.union(Seq::<i64>::empty().to_set()) =~= known0);
        for id in it: new_series.keys()
            invariant
                it.seq().unref().to_set() == new_series@.dom(),
                known@ =~= known0.union(it.seq().unref().take(it.index() as int).to_set()),
                it.seq().unref().take(it.seq().unref().len() as int) =~= it.seq().unref(),
        {
            proof {
                lemma_take_to_set(it.seq().unref(), it.index() as int);
            }
            known.insert(*id);
        }
        proof {
            assert(known@ =~= known0.union(new_series@.dom()));
            assert(known@ =~= old(self)@.known.union(series_ids(old(self)@.inserted)));
        }
        *self = Buffer {
            by_day: BTreeMap::new(),
            new_series: BTreeMap::new(),
            known_series: known,
            bytes_estimate: 0,
            sample_count: 0,
            max_record_seq: 0,
            inserted: Ghost(Seq::empty()),
        };
        Snapshot { by_day, new_series, bytes_estimate, sample_count, max_record_seq }
    }
}

impl Default for Buffer {
    fn default() -> (r: Buffer)
        ensures
            r@.inserted == Seq::<SampleView>::empty(),
            r@.known == Set::<i64>::empty(),
            r@.max_record_seq == 0,
    {
        Buffer::new()
    }
}

} // verus!
