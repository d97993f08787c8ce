//! What Grafana is answered, in terms of what it asks and of the rows there are.

use vstd::prelude::*;
use crate::calendar::rfc3339_micros;
use crate::double_laws::{exponent, law_kinds_of_bits};
use crate::grafana::{
    answer, by_target, datapoint, found_names, limit_text, query_plan, query_text, quoted,
    target_text, Target,
};
use crate::json::JsonView;
use crate::ordered::{
    has_key, items_under, keys_of, lemma_item_is_under, lemma_keys_of_exists, SortKey,
};
use crate::prometheus::fetch_laws::{
    begins, ends_with, has_part, lemma_part, lemma_part_of_joined, lemma_part_of_part, stamp,
};
use crate::prometheus::rows::PointView;
use crate::prometheus::sql::escaped;
use crate::text::{joined, occurs_in, signed_decimal, text_before};

verus! {

// ---------- search ----------

/// Names are searched one by one.
pub proof fn law_names_are_searched_one_by_one(
    a: Seq<Option<String>>,
    b: Seq<Option<String>>,
    needle: Seq<char>,
)
    ensures
        found_names(a + b, needle) == found_names(a, needle) + found_names(b, needle),
    decreases b.len(),
{
    if b.len() == 0 {
        assert(a + b =~= a);
        assert(found_names(a, needle) + found_names(b, needle) =~= found_names(a, needle));
    } else {
        law_names_are_searched_one_by_one(a, b.drop_last(), needle);
        assert((a + b).drop_last() =~= a + b.drop_last());
        assert((a + b).last() == b.last());
        assert(found_names(a + b, needle) =~= found_names(a, needle) + found_names(b, needle));
    }
}

/// A name is found where what is searched for occurs in it; every name is
/// found where nothing is searched for; a row without a name is passed over.
pub proof fn law_a_name_is_found(row: Option<String>, needle: Seq<char>)
    ensures
        row is None ==> found_names(seq![row], needle).len() == 0,
        row is Some && (needle.len() == 0 || occurs_in(needle, row->0@)) ==> found_names(
            seq![row],
            needle,
        ) == seq![row->0@],
        row is Some && needle.len() > 0 && !occurs_in(needle, row->0@) ==> found_names(
            seq![row],
            needle,
        ).len() == 0,
{
    let one = seq![row];
    assert(one.last() == row);
    assert(one.drop_last() =~= Seq::empty());
    reveal_with_fuel(found_names, 2);
    assert(found_names(one.drop_last(), needle) =~= Seq::empty());
    if row is Some && (needle.len() == 0 || occurs_in(needle, row->0@)) {
        assert(found_names(one, needle) =~= seq![row->0@]);
    }
}

// ---------- query ----------

/// A query names each of its targets, reads from the first of its instants to
/// the last, and is cut where a positive number of points is asked for.
pub proof fn law_a_query_reads_what_is_asked(
    targets: Seq<Target>,
    from: i64,
    to: i64,
    max: Option<i64>,
)
    ensures
        begins(
            query_text(targets, from, to, max),
            "SELECT metric_name, labels, timestamp, value\n         FROM sk_metric\n         WHERE metric_name IN ("@,
        ),
        has_part(
            query_text(targets, from, to, max),
            "AND timestamp BETWEEN TIMESTAMP '"@ + stamp(from) + "' AND TIMESTAMP '"@ + stamp(to)
                + "'"@,
        ),
        forall|i: int|
            0 <= i < targets.len() ==> has_part(
                query_text(targets, from, to, max),
                "'"@ + escaped((#[trigger] targets[i]).target@) + "'"@,
            ),
        max is Some && max->0 > 0 ==> ends_with(
            query_text(targets, from, to, max),
            "ORDER BY metric_name, timestamp LIMIT "@ + signed_decimal(max->0 as int),
        ),
        max is None || max->0 <= 0 ==> ends_with(
            query_text(targets, from, to, max),
            "ORDER BY metric_name, timestamp"@,
        ),
{
    let text = query_text(targets, from, to, max);
    let head =
        "SELECT metric_name, labels, timestamp, value\n         FROM sk_metric\n         WHERE metric_name IN ("@;
    let list = joined(quoted(targets), ", "@);
    let mid = ")\n           AND timestamp BETWEEN TIMESTAMP '"@;
    let start = "AND timestamp BETWEEN TIMESTAMP '"@;
    let between = "' AND TIMESTAMP '"@;
    let tail = "'\n         ORDER BY metric_name, timestamp"@;
    let order = "ORDER BY metric_name, timestamp"@;
    let limit = "ORDER BY metric_name, timestamp LIMIT "@;
    let quote = "'"@;
    assert(mid == mid.take(13) + start) by {
        reveal_strlit(")\n           AND timestamp BETWEEN TIMESTAMP '");
        reveal_strlit("AND timestamp BETWEEN TIMESTAMP '");
        assert(mid =~= mid.take(13) + start);
    }
    assert(tail == quote + tail.subrange(1, 11) + order) by {
        reveal_strlit("'\n         ORDER BY metric_name, timestamp");
        reveal_strlit("ORDER BY metric_name, timestamp");
        reveal_strlit("'");
        assert(tail =~= quote + tail.subrange(1, 11) + order);
    }
    assert(limit == order + " LIMIT "@) by {
        reveal_strlit("ORDER BY metric_name, timestamp LIMIT ");
        reveal_strlit("ORDER BY metric_name, timestamp");
        reveal_strlit(" LIMIT ");
        assert(limit =~= order + " LIMIT "@);
    }
    lemma_query_parts(
        head,
        list,
        mid.take(13),
        start,
        stamp(from),
        between,
        stamp(to),
        quote,
        tail.subrange(1, 11),
        order,
        limit_text(max),
    );
    let after = mid + stamp(from) + between + stamp(to) + tail + limit_text(max);
    assert forall|i: int| 0 <= i < targets.len() implies has_part(
        text,
        quote + escaped((#[trigger] targets[i]).target@) + quote,
    ) by {
        lemma_part_of_joined(quoted(targets), ", "@, i);
        assert(quoted(targets)[i] == quote + escaped(targets[i].target@) + quote);
        lemma_part_of_part(text, head, list, after, quoted(targets)[i]);
    }
    if max is Some && max->0 > 0 {
        assert(order + limit_text(max) =~= limit + signed_decimal(max->0 as int));
    } else {
        assert(order + limit_text(max) =~= order);
    }
}

proof fn lemma_query_parts(
    head: Seq<char>,
    list: Seq<char>,
    close: Seq<char>,
    start: Seq<char>,
    from: Seq<char>,
    between: Seq<char>,
    to: Seq<char>,
    quote: Seq<char>,
    space: Seq<char>,
    order: Seq<char>,
    limit: Seq<char>,
)
    ensures
        ({
            let text = head + list + (close + start) + from + between + to + (quote + space + order)
                + limit;
            &&& begins(text, head)
            &&& text == head + list + ((close + start) + from + between + to + (quote + space
                + order) + limit)
            &&& has_part(text, start + from + between + to + quote)
            &&& ends_with(text, order + limit)
        }),
{
    let text = head + list + (close + start) + from + between + to + (quote + space + order) + limit;
    let rest = list + (close + start) + from + between + to + (quote + space + order) + limit;
    assert(text =~= head + rest);
    assert(text =~= head + list + ((close + start) + from + between + to + (quote + space + order)
        + limit));
    let part = start + from + between + to + quote;
    assert(text =~= (head + list + close) + part + (space + order + limit));
    lemma_part(text, head + list + close, part, space + order + limit);
    assert(text =~= (head + list + close + part + space) + (order + limit));
}

/// A query without targets asks for nothing. One with targets is refused where
/// an end of its range is no instant, or the last lies before the first, and
/// is run between the two otherwise.
pub proof fn law_queries_that_are_run(
    targets: Seq<Target>,
    from: Seq<char>,
    to: Seq<char>,
    max: Option<i64>,
)
    ensures
        targets.len() == 0 <==> query_plan(targets, from, to, max) == Ok::<
            Option<Seq<char>>,
            (u16, Seq<char>),
        >(None),
        query_plan(targets, from, to, max) is Err <==> targets.len() > 0 && (rfc3339_micros(
            from,
        ) is None || rfc3339_micros(to) is None || rfc3339_micros(to)->0 < rfc3339_micros(from)->0),
        query_plan(targets, from, to, max) is Err ==> query_plan(targets, from, to, max)->Err_0.0
            == 400,
        query_plan(targets, from, to, max) is Ok && targets.len() > 0 ==> query_plan(
            targets,
            from,
            to,
            max,
        )->Ok_0 == Some(
            query_text(targets, rfc3339_micros(from)->0, rfc3339_micros(to)->0, max),
        ),
{
}

// ---------- answers ----------

/// A point is a value and then a time. The value is the number, or null where
/// it is none; the time is whole milliseconds, what is left over dropped.
pub proof fn law_a_point_is_a_value_and_a_time(ts_us: i64, value: u64)
    ensures
        exponent(value) != 2047 ==> datapoint(ts_us, value).0 == JsonView::Double(value),
        exponent(value) == 2047 ==> datapoint(ts_us, value).0 == JsonView::Null,
        datapoint(ts_us, value).1 is Int,
        ts_us >= 0 ==> datapoint(ts_us, value).1->Int_0 * 1000 <= ts_us < (datapoint(
            ts_us,
            value,
        ).1->Int_0 + 1) * 1000,
        ts_us <= 0 ==> (datapoint(ts_us, value).1->Int_0 - 1) * 1000 < ts_us <= datapoint(
            ts_us,
            value,
        ).1->Int_0 * 1000,
{
    law_kinds_of_bits(value);
}

/// The points of the rows that belong to a target, in the order they came.
pub open spec fn points_of_target(rows: Seq<PointView>, target: Seq<char>) -> Seq<
    (JsonView, JsonView),
>
    decreases rows.len(),
{
    if rows.len() == 0 {
        Seq::empty()
    } else if target_text(rows[0].metric_name, rows[0].labels) == target {
        seq![datapoint(rows[0].ts_us, rows[0].value)] + points_of_target(rows.skip(1), target)
    } else {
        points_of_target(rows.skip(1), target)
    }
}

/// Some answer is for a target.
pub open spec fn is_answered(
    answers: Seq<(Seq<char>, Seq<(JsonView, JsonView)>)>,
    target: Seq<char>,
) -> bool {
    exists|i: int| 0 <= i < answers.len() && (#[trigger] answers[i]).0 == target
}

proof fn lemma_points_of_target_last(rows: Seq<PointView>, target: Seq<char>)
    requires
        rows.len() > 0,
    ensures
        points_of_target(rows, target) == points_of_target(rows.drop_last(), target) + if target_text(
            rows.last().metric_name,
            rows.last().labels,
        ) == target {
            seq![datapoint(rows.last().ts_us, rows.last().value)]
        } else {
            Seq::empty()
        },
    decreases rows.len(),
{
    reveal_with_fuel(points_of_target, 2);
    if rows.len() == 1 {
        assert(rows.skip(1).len() == 0);
        assert(rows.drop_last().len() == 0);
        assert(points_of_target(rows, target) =~= points_of_target(rows.drop_last(), target) + if target_text(
            rows.last().metric_name,
            rows.last().labels,
        ) == target {
            seq![datapoint(rows.last().ts_us, rows.last().value)]
        } else {
            Seq::empty()
        });
    } else {
        let rest = rows.skip(1);
        lemma_points_of_target_last(rest, target);
        assert(rest.drop_last() =~= rows.drop_last().skip(1));
        assert(rest.last() == rows.last());
        assert(rows.drop_last()[0] == rows[0]);
        assert(points_of_target(rows, target) =~= points_of_target(rows.drop_last(), target) + if target_text(
            rows.last().metric_name,
            rows.last().labels,
        ) == target {
            seq![datapoint(rows.last().ts_us, rows.last().value)]
        } else {
            Seq::empty()
        });
    }
}

proof fn lemma_points_of_target(rows: Seq<PointView>, target: Seq<char>)
    ensures
        items_under(by_target(rows), target).map_values(|p: (i64, u64)| datapoint(p.0, p.1))
            == points_of_target(rows, target),
    decreases rows.len(),
{
    let f = |p: (i64, u64)| datapoint(p.0, p.1);
    if rows.len() == 0 {
        assert(items_under(by_target(rows), target).map_values(f) =~= Seq::empty());
    } else {
        let front = rows.drop_last();
        lemma_points_of_target(front, target);
        lemma_points_of_target_last(rows, target);
        assert(by_target(rows).drop_last() =~= by_target(front));
        let last = rows.last();
        assert(by_target(rows).last() == (
            target_text(last.metric_name, last.labels),
            (last.ts_us, last.value),
        ));
        assert(items_under(by_target(rows), target).map_values(f) =~= points_of_target(
            rows,
            target,
        ));
    }
}

/// Each target that some row belongs to is answered once, and no other, in
/// the order of the targets; its answer holds the points of all its rows, in
/// the order they came.
pub proof fn law_each_target_is_answered(rows: Seq<PointView>)
    ensures
        forall|i: int|
            0 <= i < rows.len() ==> is_answered(
                answer(rows),
                target_text((#[trigger] rows[i]).metric_name, rows[i].labels),
            ),
        forall|k: int|
            0 <= k < answer(rows).len() ==> (#[trigger] answer(rows)[k]).1 == points_of_target(
                rows,
                answer(rows)[k].0,
            ) && answer(rows)[k].1.len() > 0,
        forall|j: int, k: int|
            0 <= j < k < answer(rows).len() ==> text_before(
                (#[trigger] answer(rows)[j]).0,
                (#[trigger] answer(rows)[k]).0,
            ),
{
    let input = by_target(rows);
    let keys = keys_of::<String, (i64, u64)>(input);
    let out = answer(rows);
    lemma_keys_of_exists::<String, (i64, u64)>(input);
    assert forall|i: int| 0 <= i < rows.len() implies is_answered(
        out,
        target_text((#[trigger] rows[i]).metric_name, rows[i].labels),
    ) by {
        assert(keys.contains(input[i].0));
        let k = keys.index_of(input[i].0);
        assert(out[k].0 == keys[k]);
    }
    assert forall|k: int| 0 <= k < out.len() implies (#[trigger] out[k]).1 == points_of_target(
        rows,
        out[k].0,
    ) && out[k].1.len() > 0 by {
        lemma_points_of_target(rows, keys[k]);
        assert(has_key(input, keys[k]));
        let w = choose|w: int| 0 <= w < input.len() && (#[trigger] input[w]).0 == keys[k];
        lemma_item_is_under(input, w);
    }
    assert forall|j: int, k: int| 0 <= j < k < out.len() implies text_before(
        (#[trigger] out[j]).0,
        (#[trigger] out[k]).0,
    ) by {
        assert(String::before(keys[j], keys[k]));
    }
}

} // verus!
