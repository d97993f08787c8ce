//! When the buffer is flushed, and when writes are turned away.

use vstd::prelude::*;
use vstd::string::StringExecFns;
use crate::ingest::buffer::{
    sample_views, series_ids, Buffer, SampleView, Snapshot, BYTES_PER_SAMPLE,
};
use crate::ingest::types::ValidatedSample;
use crate::text::{decimal, push_decimal};

verus! {

/// The buffer size above which the flusher is woken early: 64 MiB.
pub const FLUSH_SIZE_BYTES: usize = 67_108_864;

/// The buffer size at which writes are turned away, to keep memory bounded: 256
/// MiB.
pub const BACKPRESSURE_BYTES: usize = 268_435_456;

/// What a writer is told that is turned away.
pub open spec fn backpressure_text(bytes: nat) -> Seq<char> {
    "buffer at "@ + decimal(bytes) + " bytes (cap "@ + decimal(BACKPRESSURE_BYTES as nat)
        + "); flusher behind, retry shortly"@
}

/// Whether writes are taken: as long as the buffer is below the cap.
pub fn check_backpressure(buffer: &Buffer) -> (r: Result<(), String>)
    ensures
        r is Err == (buffer@.inserted.len() * BYTES_PER_SAMPLE >= BACKPRESSURE_BYTES),
        r is Err ==> r->Err_0@ == backpressure_text(
            (buffer@.inserted.len() * BYTES_PER_SAMPLE) as nat,
        ),
{
    let n: usize = buffer.bytes_estimate();
    if n >= BACKPRESSURE_BYTES {
        let mut m = "buffer at ".to_string();
        push_decimal(&mut m, n as u64);
        m.append(" bytes (cap ");
        push_decimal(&mut m, BACKPRESSURE_BYTES as u64);
        m.append("); flusher behind, retry shortly");
        Err(m)
    } else {
        Ok(())
    }
}

/// Put a batch that the log holds into the buffer; whether the flusher is to be
/// woken.
pub fn insert_logged(buffer: &mut Buffer, record_seq: u64, samples: Vec<ValidatedSample>) -> (r:
    bool)
    requires
        (old(buffer)@.inserted.len() + samples@.len()) * BYTES_PER_SAMPLE <= usize::MAX,
    ensures
        final(buffer)@.inserted == old(buffer)@.inserted + sample_views(samples@),
        final(buffer)@.known == old(buffer)@.known,
        final(buffer)@.max_record_seq == if record_seq > old(buffer)@.max_record_seq {
            record_seq
        } else {
            old(buffer)@.max_record_seq
        },
        r == (final(buffer)@.inserted.len() * BYTES_PER_SAMPLE >= FLUSH_SIZE_BYTES),
{
    buffer.insert_batch(record_seq, samples);
    buffer.bytes_estimate() >= FLUSH_SIZE_BYTES
}

/// Take what is to be flushed; `None` where there is nothing.
pub fn take_for_flush(buffer: &mut Buffer) -> (r: Option<Snapshot>)
    ensures
        match r {
            Some(s) => {
                &&& old(buffer)@.inserted.len() > 0
                &&& s.is_of(old(buffer)@)
                &&& final(buffer)@.inserted == Seq::<SampleView>::empty()
                &&& final(buffer)@.known == old(buffer)@.known.union(
                    series_ids(old(buffer)@.inserted),
                )
                &&& final(buffer)@.max_record_seq == 0
            },
            None => old(buffer)@.inserted.len() == 0 && *final(buffer) == *old(buffer),
        },
{
    if buffer.is_empty() {
        None
    } else {
        Some(buffer.take())
    }
}

/// Up to which record the log is truncated once a snapshot has been written;
/// `None` where its samples came from no record.
pub fn truncation_point(max_record_seq: u64) -> (r: Option<u64>)
    ensures
        r == if max_record_seq > 0 {
            Some(max_record_seq)
        } else {
            None
        },
{
    if max_record_seq > 0 {
        Some(max_record_seq)
    } else {
        None
    }
}

/// What became of a log record on replay.
pub enum Replayed {
    /// A record with its samples.
    Samples(u64, Vec<ValidatedSample>),
    /// A record whose samples cannot be read.
    Unreadable(u64),
    /// The log cannot be read on.
    Stopped,
}

/// The samples of the records that are replayed: those that can be read, up to
/// where the log stops.
pub open spec fn replayed_samples(records: Seq<Replayed>) -> Seq<SampleView>
    decreases records.len(),
{
    if records.len() == 0 {
        Seq::empty()
    } else {
        match records[0] {
            Replayed::Samples(_, s) => sample_views(s@) + replayed_samples(records.skip(1)),
            Replayed::Unreadable(_) => replayed_samples(records.skip(1)),
            Replayed::Stopped => Seq::empty(),
        }
    }
}

/// How many records are replayed.
pub open spec fn replayed_count(records: Seq<Replayed>) -> nat
    decreases records.len(),
{
    if records.len() == 0 {
        0
    } else {
        match records[0] {
            Replayed::Samples(_, _) => 1 + replayed_count(records.skip(1)),
            Replayed::Unreadable(_) => replayed_count(records.skip(1)),
            Replayed::Stopped => 0,
        }
    }
}

/// The highest number of a replayed record, `from` where none is higher.
pub open spec fn replayed_seq(records: Seq<Replayed>, from: u64) -> u64
    decreases records.len(),
{
    if records.len() == 0 {
        from
    } else {
        match records[0] {
            Replayed::Samples(seq, _) => replayed_seq(
                records.skip(1),
                if seq > from {
                    seq
                } else {
                    from
                },
            ),
            Replayed::Unreadable(_) => replayed_seq(records.skip(1), from),
            Replayed::Stopped => from,
        }
    }
}

/// Put the samples of the log's records back into the buffer, up to where the
/// log stops; how many records were taken.
pub fn replay_wal(buffer: &mut Buffer, records: Vec<Replayed>) -> (r: usize)
    requires
        (old(buffer)@.inserted.len() + replayed_samples(records@).len()) * BYTES_PER_SAMPLE
            <= usize::MAX,
    ensures
        final(buffer)@.inserted == old(buffer)@.inserted + replayed_samples(records@),
        final(buffer)@.known == old(buffer)@.known,
        final(buffer)@.max_record_seq == replayed_seq(records@, old(buffer)@.max_record_seq),
        r == replayed_count(records@),
{
    let ghost all = records@;
    let ghost first = buffer@;
    let mut n: usize = 0;
    let mut stopped: bool = false;
    let len: usize = records.len();
    proof {
        assert(all.skip(0) =~= all);
        assert(first.inserted + replayed_samples(all) =~= buffer@.inserted + replayed_samples(
            all.skip(0),
        ));
    }
    for record in it: records
        invariant
            it.seq() == all,
            len == all.len(),
            n <= it.index(),
            (first.inserted.len() + replayed_samples(all).len()) * BYTES_PER_SAMPLE <= usize::MAX,
            buffer@.known == first.known,
            stopped ==> {
                &&& buffer@.inserted == first.inserted + replayed_samples(all)
                &&& buffer@.max_record_seq == replayed_seq(all, first.max_record_seq)
                &&& n == replayed_count(all)
            },
            !stopped ==> {
                &&& first.inserted + replayed_samples(all) == buffer@.inserted + replayed_samples(
                    all.skip(it.index() as int),
                )
                &&& replayed_seq(all, first.max_record_seq) == replayed_seq(
                    all.skip(it.index() as int),
                    buffer@.max_record_seq,
                )
                &&& replayed_count(all) == n + replayed_count(all.skip(it.index() as int))
            },
    {
        let ghost at = it.index() as int;
        let ghost b0 = buffer@;
        proof {
            assert(all.skip(at)[0] == record);
            assert(all.skip(at).skip(1) =~= all.skip(at + 1));
        }
        if !stopped {
            match record {
                Replayed::Samples(seq, samples) => {
                    let ghost sv = sample_views(samples@);
                    proof {
                        assert(first.inserted + replayed_samples(all) == b0.inserted + (sv
                            + replayed_samples(all.skip(at + 1))));
                        assert((b0.inserted.len() + samples@.len()) * BYTES_PER_SAMPLE <= (
                        first.inserted.len() + replayed_samples(all).len()) * BYTES_PER_SAMPLE)
                            by (nonlinear_arith)
                            requires
                                b0.inserted.len() + samples@.len() <= first.inserted.len()
                                    + replayed_samples(all).len(),
                                BYTES_PER_SAMPLE >= 0,
                        ;
                    }
                    buffer.insert_batch(seq, samples);
                    n += 1;
                    assert(b0.inserted + (sv + replayed_samples(all.skip(at + 1)))
                        =~= buffer@.inserted + replayed_samples(all.skip(at + 1)));
                },
                Replayed::Unreadable(_) => {},
                Replayed::Stopped => {
                    stopped = true;
                    assert(buffer@.inserted + Seq::<SampleView>::empty() =~= buffer@.inserted);
                },
            }
        }
    }
    proof {
        assert(all.skip(all.len() as int) =~= Seq::empty());
        assert(buffer@.inserted + Seq::<SampleView>::empty() =~= buffer@.inserted);
    }
    n
}

/// Replay restores what was inserted: a log with one record more, read up to its
/// end, puts in that record's samples after the others, and its number counts.
pub proof fn law_replay_restores_insertions(
    records: Seq<Replayed>,
    seq: u64,
    samples: Vec<ValidatedSample>,
    from: u64,
)
    requires
        forall|i: int| 0 <= i < records.len() ==> !(#[trigger] records[i] is Stopped),
    ensures
        replayed_samples(records.push(Replayed::Samples(seq, samples))) == replayed_samples(records)
            + sample_views(samples@),
        replayed_seq(records.push(Replayed::Samples(seq, samples)), from) == if seq > replayed_seq(
            records,
            from,
        ) {
            seq
        } else {
            replayed_seq(records, from)
        },
    decreases records.len(),
{
    let all = records.push(Replayed::Samples(seq, samples));
    if records.len() == 0 {
        reveal_with_fuel(replayed_samples, 2);
        reveal_with_fuel(replayed_seq, 2);
        assert(all.skip(1) =~= Seq::empty());
        assert(all[0] == Replayed::Samples(seq, samples));
        assert(replayed_samples(all) =~= replayed_samples(records) + sample_views(samples@));
    } else {
        let rest = records.skip(1);
        assert(all.skip(1) =~= rest.push(Replayed::Samples(seq, samples)));
        assert(all[0] == records[0]);
        assert forall|i: int| 0 <= i < rest.len() implies !(#[trigger] rest[i] is Stopped) by {
            assert(rest[i] == records[i + 1]);
        }
        assert(!(records[0] is Stopped));
        match records[0] {
            Replayed::Samples(n, s) => {
                law_replay_restores_insertions(
                    rest,
                    seq,
                    samples,
                    if n > from {
                        n
                    } else {
                        from
                    },
                );
                assert(replayed_samples(all) =~= replayed_samples(records) + sample_views(
                    samples@,
                ));
            },
            _ => {
                law_replay_restores_insertions(rest, seq, samples, from);
            },
        }
    }
}

} // verus!
