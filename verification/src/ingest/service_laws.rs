//! What a replay puts back, in terms of the records of the log.

use vstd::prelude::*;
use crate::ingest::buffer::sample_views;
use crate::ingest::service::{replayed_count, replayed_samples, replayed_seq, Replayed};

verus! {

/// The log can be read up to its end.
pub open spec fn is_readable(records: Seq<Replayed>) -> bool {
    forall|i: int| 0 <= i < records.len() ==> !(#[trigger] records[i] is Stopped)
}

/// Records are replayed one by one as long as the log can be read: first those
/// of the first part, then those of the second.
pub proof fn law_records_are_replayed_one_by_one(a: Seq<Replayed>, b: Seq<Replayed>, from: u64)
    requires
        is_readable(a),
    ensures
        replayed_samples(a + b) == replayed_samples(a) + replayed_samples(b),
        replayed_count(a + b) == replayed_count(a) + replayed_count(b),
        replayed_seq(a + b, from) == replayed_seq(b, replayed_seq(a, from)),
    decreases a.len(),
{
    if a.len() == 0 {
        assert(a + b =~= b);
        assert(replayed_samples(a) + replayed_samples(b) =~= replayed_samples(b));
    } else {
        let rest = a.skip(1);
        assert forall|i: int| 0 <= i < rest.len() implies !(#[trigger] rest[i] is Stopped) by {
            assert(rest[i] == a[i + 1]);
        }
        assert(!(a[0] is Stopped));
        assert((a + b)[0] == a[0]);
        assert((a + b).skip(1) =~= rest + b);
        let next = match a[0] {
            Replayed::Samples(n, _) => if n > from {
                n
            } else {
                from
            },
            _ => from,
        };
        law_records_are_replayed_one_by_one(rest, b, next);
        assert(replayed_samples(a + b) =~= replayed_samples(a) + replayed_samples(b));
    }
}

/// A record puts back all its samples and counts as one; its number counts
/// where it is the higher. One that cannot be read puts back nothing.
pub proof fn law_a_record_is_replayed(record: Replayed, from: u64)
    ensures
        match record {
            Replayed::Samples(n, samples) => {
                &&& replayed_samples(seq![record]) == sample_views(samples@)
                &&& replayed_count(seq![record]) == 1
                &&& replayed_seq(seq![record], from) >= n
                &&& replayed_seq(seq![record], from) >= from
                &&& replayed_seq(seq![record], from) == n || replayed_seq(seq![record], from)
                    == from
            },
            _ => {
                &&& replayed_samples(seq![record]).len() == 0
                &&& replayed_count(seq![record]) == 0
                &&& replayed_seq(seq![record], from) == from
            },
        },
{
    let one = seq![record];
    assert(one[0] == record);
    assert(one.skip(1) =~= Seq::empty());
    reveal_with_fuel(replayed_samples, 2);
    reveal_with_fuel(replayed_count, 2);
    reveal_with_fuel(replayed_seq, 2);
    if let Replayed::Samples(_, samples) = record {
        assert(replayed_samples(one) =~= sample_views(samples@));
    }
}

/// What comes after the place where the log cannot be read on is left out.
pub proof fn law_replay_ends_where_the_log_stops(a: Seq<Replayed>, b: Seq<Replayed>, from: u64)
    requires
        is_readable(a),
    ensures
        replayed_samples(a + seq![Replayed::Stopped] + b) == replayed_samples(a),
        replayed_count(a + seq![Replayed::Stopped] + b) == replayed_count(a),
        replayed_seq(a + seq![Replayed::Stopped] + b, from) == replayed_seq(a, from),
{
    let rest = seq![Replayed::Stopped] + b;
    assert(a + seq![Replayed::Stopped] + b =~= a + rest);
    law_records_are_replayed_one_by_one(a, rest, from);
    assert(rest[0] == Replayed::Stopped);
    assert(replayed_samples(a) + replayed_samples(rest) =~= replayed_samples(a));
}

} // verus!
