//! Which samples are accepted, in terms of the samples themselves.

use vstd::prelude::*;
use crate::double_laws::{exponent, law_kinds_of_bits};
use crate::handlers::{law_refusals_do_not_spread, refused, taken, verdict};
use crate::ingest::buffer::SampleView;
use crate::ingest::remote_write::RawView;
use crate::ingest::validate::{
    first_bad_label, name_part, refusal, series_id_of, valid_name, Refusal,
};
use crate::labels::Pairs;
use crate::text::begins_with;

verus! {

/// A letter of the Latin alphabet, or an underscore.
pub open spec fn is_letter(c: char) -> bool {
    65 <= c as int <= 90 || 97 <= c as int <= 122 || c == '_'
}

/// A decimal digit.
pub open spec fn is_digit(c: char) -> bool {
    48 <= c as int <= 57
}

/// Letters and digits, at least one, and no digit in front.
pub open spec fn well_named(s: Seq<char>) -> bool {
    &&& s.len() > 0
    &&& !is_digit(s[0])
    &&& forall|i: int|
        0 <= i < s.len() ==> (is_letter(#[trigger] s[i]) || is_digit(s[i]))
}

/// Two underscores stand in front.
pub open spec fn is_internal(s: Seq<char>) -> bool {
    s.len() >= 2 && s[0] == '_' && s[1] == '_'
}

/// Every label has a name that a client may give.
pub open spec fn well_labelled(labels: Pairs) -> bool {
    forall|i: int|
        0 <= i < labels.len() ==> well_named((#[trigger] labels[i]).0) && !is_internal(labels[i].0)
}

/// The first label whose name a client may not give.
pub open spec fn is_first_fault(labels: Pairs, k: int) -> bool {
    &&& 0 <= k < labels.len()
    &&& !well_named(labels[k].0) || is_internal(labels[k].0)
    &&& well_labelled(labels.take(k))
}

/// A number, neither infinite nor no number.
pub open spec fn is_number(value: u64) -> bool {
    exponent(value) != 2047
}

proof fn lemma_well_named(s: Seq<char>)
    ensures
        valid_name(s) == well_named(s),
        begins_with(s, "__"@) == is_internal(s),
{
    reveal_strlit("__");
    if well_named(s) {
        assert(is_letter(s[0]));
        assert forall|i: int| 0 <= i < s.len() implies name_part(#[trigger] s[i]) by {
            assert(is_letter(s[i]) || is_digit(s[i]));
        }
    }
    if valid_name(s) {
        assert forall|i: int| 0 <= i < s.len() implies is_letter(#[trigger] s[i]) || is_digit(
            s[i],
        ) by {
            assert(name_part(s[i]));
        }
    }
    if is_internal(s) {
        assert(s.take(2) =~= "__"@);
    } else if begins_with(s, "__"@) {
        assert("__"@[0] == '_' && "__"@[1] == '_');
        assert(s.take(2)[0] == s[0] && s.take(2)[1] == s[1]);
    }
}

proof fn lemma_first_fault(labels: Pairs)
    ensures
        first_bad_label(labels) is None <==> well_labelled(labels),
        first_bad_label(labels) != Some(Refusal::EmptyMetricName),
        forall|k: int| #[trigger]
            is_first_fault(labels, k) ==> first_bad_label(labels) == Some(
                if is_internal(labels[k].0) {
                    Refusal::ReservedLabelName(labels[k].0)
                } else {
                    Refusal::InvalidLabelName(labels[k].0)
                },
            ),
    decreases labels.len(),
{
    if labels.len() > 0 {
        let rest = labels.skip(1);
        lemma_well_named(labels[0].0);
        lemma_first_fault(rest);
        let fine = well_named(labels[0].0) && !is_internal(labels[0].0);
        if well_labelled(labels) {
            assert(fine);
            assert forall|i: int| 0 <= i < rest.len() implies well_named((#[trigger] rest[i]).0)
                && !is_internal(rest[i].0) by {
                assert(rest[i] == labels[i + 1]);
            }
        }
        if fine && well_labelled(rest) {
            assert forall|i: int| 0 <= i < labels.len() implies well_named((#[trigger] labels[i]).0)
                && !is_internal(labels[i].0) by {
                if i > 0 {
                    assert(labels[i] == rest[i - 1]);
                }
            }
        }
        assert forall|k: int| #[trigger] is_first_fault(labels, k) implies first_bad_label(labels)
            == Some(
            if is_internal(labels[k].0) {
                Refusal::ReservedLabelName(labels[k].0)
            } else {
                Refusal::InvalidLabelName(labels[k].0)
            },
        ) by {
            if k > 0 {
                assert(labels.take(k)[0] == labels[0]);
                assert(fine);
                assert forall|i: int| 0 <= i < k - 1 implies well_named(
                    (#[trigger] rest.take(k - 1)[i]).0,
                ) && !is_internal(rest.take(k - 1)[i].0) by {
                    assert(rest.take(k - 1)[i] == labels.take(k)[i + 1]);
                }
                assert(rest[k - 1] == labels[k]);
                assert(is_first_fault(rest, k - 1));
            }
        }
    }
}

/// A sample is accepted exactly where its metric and all its labels are well
/// named, no label has a name in two underscores, its value is a number, and
/// its time is at most one hour past and at most five minutes ahead.
pub proof fn law_samples_that_are_accepted(
    metric: Seq<char>,
    labels: Pairs,
    ts: i64,
    value: u64,
    now: i64,
)
    ensures
        refusal(metric, labels, ts, value, now) is None <==> (well_named(metric) && well_labelled(
            labels,
        ) && is_number(value) && now - 60 * 60 * 1000 <= ts && ts <= now + 5 * 60 * 1000),
{
    lemma_well_named(metric);
    lemma_first_fault(labels);
    law_kinds_of_bits(value);
}

/// A sample that is not accepted is refused for its metric's name before its
/// labels, for the first of its labels that is at fault, for its value after
/// the names, and for its time last.
pub proof fn law_samples_that_are_refused(
    metric: Seq<char>,
    labels: Pairs,
    ts: i64,
    value: u64,
    now: i64,
)
    ensures
        refusal(metric, labels, ts, value, now) == Some(Refusal::EmptyMetricName) <==> metric.len()
            == 0,
        metric.len() > 0 && !well_named(metric) ==> refusal(metric, labels, ts, value, now) == Some(
            Refusal::InvalidMetricName(metric),
        ),
        forall|k: int|
            well_named(metric) && #[trigger] is_first_fault(labels, k) ==> refusal(
                metric,
                labels,
                ts,
                value,
                now,
            ) == Some(
                if is_internal(labels[k].0) {
                    Refusal::ReservedLabelName(labels[k].0)
                } else {
                    Refusal::InvalidLabelName(labels[k].0)
                },
            ),
        well_named(metric) && well_labelled(labels) && !is_number(value) ==> refusal(
            metric,
            labels,
            ts,
            value,
            now,
        ) == Some(
            Refusal::NonFiniteValue(
                if value == 0x7ff0_0000_0000_0000 {
                    "Infinity"@
                } else if value == 0xfff0_0000_0000_0000 {
                    "-Infinity"@
                } else {
                    "NaN"@
                },
            ),
        ),
        well_named(metric) && well_labelled(labels) && is_number(value) && now - 60 * 60 * 1000 > ts
            ==> refusal(metric, labels, ts, value, now) == Some(
            (Refusal::TimestampTooOld { ts, now, grace_ms: 3_600_000 }),
        ),
        well_named(metric) && well_labelled(labels) && is_number(value) && ts > now + 5 * 60 * 1000
            ==> refusal(metric, labels, ts, value, now) == Some(
            (Refusal::TimestampTooNew { ts, now, grace_ms: 300_000 }),
        ),
{
    lemma_well_named(metric);
    lemma_first_fault(labels);
    law_kinds_of_bits(value);
    assert forall|k: int| well_named(metric) && #[trigger] is_first_fault(labels, k) implies refusal(
        metric,
        labels,
        ts,
        value,
        now,
    ) == Some(
        if is_internal(labels[k].0) {
            Refusal::ReservedLabelName(labels[k].0)
        } else {
            Refusal::InvalidLabelName(labels[k].0)
        },
    ) by {
        assert(!well_labelled(labels));
    }
}

/// A sample that is accepted keeps its metric, labels and value, and its time
/// becomes a thousand times as many microseconds.
pub proof fn law_accepted_samples_are_kept(raw: RawView, now: i64)
    requires
        refusal(raw.metric, raw.labels, raw.ts, raw.value, now) is None,
    ensures
        match verdict(raw, now) {
            Ok(s) => {
                &&& s.metric == raw.metric
                &&& s.labels == raw.labels
                &&& s.value == raw.value
                &&& s.series_id == series_id_of(raw.metric, raw.labels)
                &&& i64::MIN <= raw.ts * 1000 <= i64::MAX ==> s.ts_us == raw.ts * 1000
                &&& raw.ts * 1000 > i64::MAX ==> s.ts_us == i64::MAX
                &&& raw.ts * 1000 < i64::MIN ==> s.ts_us == i64::MIN
            },
            Err(_) => false,
        },
{
}

/// Samples are answered one by one: those of the second part keep their
/// answers, at places that lie further on by the length of the first.
pub proof fn law_samples_are_answered_one_by_one(a: Seq<RawView>, b: Seq<RawView>, now: i64)
    ensures
        taken(a + b, now) == taken(a, now) + taken(b, now),
        refused(a + b, now).len() == refused(a, now).len() + refused(b, now).len(),
        forall|i: int|
            0 <= i < refused(a, now).len() ==> #[trigger] refused(a + b, now)[i] == refused(
                a,
                now,
            )[i],
        forall|i: int|
            0 <= i < refused(b, now).len() ==> #[trigger] refused(b, now)[i] == (
                refused(a + b, now)[refused(a, now).len() + i].0 - a.len(),
                refused(a + b, now)[refused(a, now).len() + i].1,
            ),
    decreases b.len(),
{
    law_refusals_do_not_spread(a, b, now);
    if b.len() == 0 {
        assert(a + b =~= a);
    } else {
        law_samples_are_answered_one_by_one(a, b.drop_last(), now);
        assert((a + b).drop_last() =~= a + b.drop_last());
        assert((a + b).last() == b.last());
        let front = b.drop_last();
        assert forall|i: int| 0 <= i < refused(b, now).len() implies #[trigger] refused(b, now)[i]
            == (
            refused(a + b, now)[refused(a, now).len() + i].0 - a.len(),
            refused(a + b, now)[refused(a, now).len() + i].1,
        ) by {
            if i < refused(front, now).len() {
                assert(refused(b, now)[i] == refused(front, now)[i]);
                assert(refused(a + b, now)[refused(a, now).len() + i] == refused(a + front, now)[
                refused(a, now).len() + i]);
            }
        }
        assert forall|i: int| 0 <= i < refused(a, now).len() implies #[trigger] refused(
            a + b,
            now,
        )[i] == refused(a, now)[i] by {
            assert(refused(a + b, now)[i] == refused(a + front, now)[i]);
        }
    }
}

/// A sample alone is taken where it is accepted, else refused at its place.
pub proof fn law_one_sample_is_answered(raw: RawView, now: i64)
    ensures
        match refusal(raw.metric, raw.labels, raw.ts, raw.value, now) {
            None => taken(seq![raw], now).len() == 1 && Ok::<SampleView, Refusal>(
                taken(seq![raw], now)[0],
            ) == verdict(raw, now) && refused(seq![raw], now).len() == 0,
            Some(e) => taken(seq![raw], now).len() == 0 && refused(seq![raw], now) == seq![
                (0int, e),
            ],
        },
{
    let one = seq![raw];
    assert(one.last() == raw);
    assert(one.drop_last() =~= Seq::empty());
    reveal_with_fuel(taken, 2);
    reveal_with_fuel(refused, 2);
    assert(refused(one.drop_last(), now).len() == 0);
    if refusal(raw.metric, raw.labels, raw.ts, raw.value, now) is Some {
        assert(refused(one, now) =~= seq![
            (0int, refusal(raw.metric, raw.labels, raw.ts, raw.value, now)->0),
        ]);
    }
}

} // verus!
