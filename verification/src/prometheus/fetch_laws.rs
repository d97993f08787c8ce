//! What the statements of an expression read, and how they rank and compute.
//!
//! A statement is known by the parts of its text that decide what comes back.

use vstd::prelude::*;
use crate::calendar::{representable, utc_text};
use crate::double::{is_finite_bits, less_bits};
use crate::labels::lookup;
use crate::prometheus::ast::{Grouping, MatchOp, MatcherView, QueryExpr, SelectorView};
use crate::prometheus::fetch::{
    instant_statements, number_literal, range_statements, Columns, NumberWriter,
};
use crate::prometheus::plan::{
    bare_selector, by_ref, count_of, law_steps_go_inward, needs_names, needs_row_filter, step_of,
    AggOp, BinOp, Operand, RangeFnOp, Step,
};
use crate::prometheus::operate_laws::is_comparing;
use crate::prometheus::plan_laws::{
    is_ranking, is_topk, law_operations_by_their_signs, law_range_functions_by_their_names,
    law_rankings_by_their_names, law_reductions_by_their_names, law_selectors_are_fetched,
    named_aggregation, named_function, signed_operator,
};
use crate::prometheus::queries::{
    instant_aggregate_text, instant_topk_text, label_values_text, range_aggregate_text,
    range_fn_text, range_topk_text, row_operation, scalar_instant_text, scalar_range_text,
    selector_text, series_text, FROM_JOINED, LATEST_FIRST,
};
use crate::prometheus::rows::PointView;
use crate::prometheus::sql::{
    agg_call, condition, conditions, escaped, group_keys, label_columns, label_texts, metric_of,
    name_condition, name_matcher, predicates, time_condition, where_conditions, NAME_LABEL,
};
use crate::text::{ascii_lowered, decimal, joined};

verus! {

// ---------- parts of texts ----------

/// Whether a text has a part.
pub open spec fn has_part(text: Seq<char>, part: Seq<char>) -> bool {
    exists|a: Seq<char>, b: Seq<char>| text == #[trigger] (a + part + b)
}

/// Whether a text begins with a part.
pub open spec fn begins(text: Seq<char>, part: Seq<char>) -> bool {
    exists|b: Seq<char>| text == #[trigger] (part + b)
}

/// Whether a text ends with a part.
pub open spec fn ends_with(text: Seq<char>, part: Seq<char>) -> bool {
    exists|a: Seq<char>| text == #[trigger] (a + part)
}

/// What stands between two texts is a part of the whole.
pub proof fn lemma_part(text: Seq<char>, a: Seq<char>, part: Seq<char>, b: Seq<char>)
    requires
        text == a + part + b,
    ensures
        has_part(text, part),
{
}

/// A part of a part is a part of the whole.
pub proof fn lemma_part_of_part(
    text: Seq<char>,
    a: Seq<char>,
    t: Seq<char>,
    b: Seq<char>,
    part: Seq<char>,
)
    requires
        text == a + t + b,
        has_part(t, part),
    ensures
        has_part(text, part),
{
    let (x, y) = choose|x: Seq<char>, y: Seq<char>| t == #[trigger] (x + part + y);
    assert(text =~= (a + x) + part + (y + b));
}

/// Each of the texts that are joined is a part of the whole.
pub proof fn lemma_part_of_joined(parts: Seq<Seq<char>>, sep: Seq<char>, i: int)
    requires
        0 <= i < parts.len(),
    ensures
        has_part(joined(parts, sep), parts[i]),
    decreases parts.len(),
{
    let none = Seq::<char>::empty();
    let text = joined(parts, sep);
    if parts.len() == 1 {
        assert(text =~= none + parts[i] + none);
    } else if i == parts.len() - 1 {
        assert(text =~= (joined(parts.drop_last(), sep) + sep) + parts[i] + none);
    } else {
        let rest = parts.drop_last();
        lemma_part_of_joined(rest, sep, i);
        assert(rest[i] == parts[i]);
        assert(text =~= none + joined(rest, sep) + (sep + parts.last()));
        lemma_part_of_part(text, none, joined(rest, sep), sep + parts.last(), parts[i]);
    }
}

// ---------- time ----------

/// An instant as SQL has it: in UTC, to the microsecond. One that cannot be written
/// counts as the epoch.
pub open spec fn stamp(us: i64) -> Seq<char> {
    if representable(us as int / 1_000_000) {
        utc_text(
            (us as int / 1_000_000) as i64,
            ((us as int % 1_000_000) * 1_000) as u32,
            "%Y-%m-%d %H:%M:%S%.6f"@,
        )
    } else {
        utc_text(0, 0, "%Y-%m-%d %H:%M:%S%.6f"@)
    }
}

/// Whether a statement reads the samples from one instant to another, both
/// included.
pub open spec fn reads(text: Seq<char>, from: i64, to: i64) -> bool {
    has_part(
        text,
        "sa.timestamp BETWEEN TIMESTAMP '"@ + stamp(from) + "' AND TIMESTAMP '"@ + stamp(to) + "'"@,
    )
}

/// The conditions on a selector's samples are limited to the instants asked for.
pub proof fn law_conditions_limit_the_time(sel: SelectorView, from: i64, to: i64)
    ensures
        reads(where_conditions(sel, from, to), from, to),
{
    let parts = predicates(sel).push(time_condition(from, to));
    let n = parts.len() - 1;
    assert(parts[n] == time_condition(from, to));
    lemma_part_of_joined(parts, " AND "@, n);
}

/// The condition that a name be this one.
pub open spec fn name_is(name: Seq<char>) -> Seq<char> {
    "s.metric_name = '"@ + escaped(name) + "'"@
}

/// The condition that a `=` or a `!=` matcher puts on a series; a pattern puts none.
pub open spec fn wanted(m: MatcherView) -> Option<Seq<char>> {
    let label = "element_at(s.labels, '"@ + escaped(m.name) + "')[1]"@;
    match m.op {
        MatchOp::Equal => Some(
            if m.name == "__name__"@ {
                name_is(m.value)
            } else {
                label + " = '"@ + escaped(m.value) + "'"@
            },
        ),
        MatchOp::NotEqual => Some(
            if m.name == "__name__"@ {
                "s.metric_name != '"@ + escaped(m.value) + "'"@
            } else {
                "COALESCE("@ + label + ", '') != '"@ + escaped(m.value) + "'"@
            },
        ),
        _ => None,
    }
}

/// Whether a text has a selector's condition on the metric's name, and that of each
/// of its `=` and `!=` matchers.
pub open spec fn selects(text: Seq<char>, sel: SelectorView) -> bool {
    &&& sel.name is Some ==> has_part(text, name_is(sel.name->0))
    &&& forall|i: int|
        0 <= i < sel.matchers.len() && wanted(#[trigger] sel.matchers[i]) is Some ==> has_part(
            text,
            wanted(sel.matchers[i])->0,
        )
}

/// Whether a condition is that on a selector's name, or that of one of its matchers.
pub open spec fn is_wanted(sel: SelectorView, c: Seq<char>) -> bool {
    ||| sel.name is Some && c == name_is(sel.name->0)
    ||| exists|i: int| 0 <= i < sel.matchers.len() && wanted(#[trigger] sel.matchers[i]) == Some(c)
}

proof fn lemma_condition_at(named: Option<Seq<char>>, m: Seq<MatcherView>, i: int)
    requires
        0 <= i < m.len(),
        condition(named, m[i]) is Some,
    ensures
        conditions(named, m).contains(condition(named, m[i])->0),
    decreases m.len(),
{
    let c = condition(named, m[i])->0;
    let all = conditions(named, m);
    if i == m.len() - 1 {
        assert(all[all.len() - 1] == c);
    } else {
        let rest = m.drop_last();
        assert(rest[i] == m[i]);
        lemma_condition_at(named, rest, i);
        let before = conditions(named, rest);
        let k = choose|k: int| 0 <= k < before.len() && before[k] == c;
        assert(all[k] == c);
    }
}

proof fn lemma_conditions_are_wanted(named: Option<Seq<char>>, m: Seq<MatcherView>, k: int)
    requires
        0 <= k < conditions(named, m).len(),
    ensures
        exists|i: int|
            0 <= i < m.len() && wanted(#[trigger] m[i]) == Some(conditions(named, m)[k]),
    decreases m.len(),
{
    let rest = m.drop_last();
    let c = conditions(named, m)[k];
    if k < conditions(named, rest).len() {
        lemma_conditions_are_wanted(named, rest, k);
        let i = choose|i: int| 0 <= i < rest.len() && wanted(#[trigger] rest[i]) == Some(c);
        assert(m[i] == rest[i]);
    } else {
        assert(wanted(m[m.len() - 1]) == Some(c));
    }
}

proof fn lemma_name_matcher(m: Seq<MatcherView>)
    ensures
        name_matcher(m) is Some ==> exists|i: int|
            0 <= i < m.len() && wanted(#[trigger] m[i]) == Some(name_is(name_matcher(m)->0.value)),
    decreases m.len(),
{
    if m.len() > 0 {
        if m[0].name == NAME_LABEL@ && m[0].op is Equal {
            assert(wanted(m[0]) == Some(name_is(m[0].value)));
        } else {
            let rest = m.skip(1);
            lemma_name_matcher(rest);
            if name_matcher(m) is Some {
                let i = choose|i: int|
                    0 <= i < rest.len() && wanted(#[trigger] rest[i]) == Some(
                        name_is(name_matcher(rest)->0.value),
                    );
                assert(m[i + 1] == rest[i]);
            }
        }
    }
}

/// No series is left out but by the selector's name or one of its matchers.
pub proof fn law_conditions_are_wanted(sel: SelectorView)
    ensures
        forall|k: int|
            0 <= k < predicates(sel).len() ==> is_wanted(sel, #[trigger] predicates(sel)[k]),
{
    let named = metric_of(sel);
    let head = name_condition(sel);
    let all = conditions(named, sel.matchers);
    assert forall|k: int| 0 <= k < predicates(sel).len() implies is_wanted(
        sel,
        #[trigger] predicates(sel)[k],
    ) by {
        if k < head.len() {
            lemma_name_matcher(sel.matchers);
            assert(predicates(sel)[k] == head[0]);
        } else {
            assert(predicates(sel)[k] == all[k - head.len()]);
            lemma_conditions_are_wanted(named, sel.matchers, k - head.len());
        }
    }
}

proof fn lemma_joined_select(parts: Seq<Seq<char>>, sel: SelectorView)
    requires
        predicates(sel).len() <= parts.len(),
        forall|k: int| 0 <= k < predicates(sel).len() ==> #[trigger] parts[k] == predicates(sel)[k],
    ensures
        selects(joined(parts, " AND "@), sel),
{
    let text = joined(parts, " AND "@);
    let named = metric_of(sel);
    let head = name_condition(sel);
    let all = conditions(named, sel.matchers);
    if named is Some {
        assert(parts[0] == predicates(sel)[0]);
        assert(parts[0] == name_is(named->0));
        lemma_part_of_joined(parts, " AND "@, 0);
    }
    assert forall|i: int|
        0 <= i < sel.matchers.len() && wanted(#[trigger] sel.matchers[i]) is Some implies has_part(
        text,
        wanted(sel.matchers[i])->0,
    ) by {
        let m = sel.matchers[i];
        match condition(named, m) {
            Some(c) => {
                assert(wanted(m) == Some(c));
                lemma_condition_at(named, sel.matchers, i);
                let k = choose|k: int| 0 <= k < all.len() && all[k] == c;
                assert(predicates(sel)[head.len() + k] == c);
                assert(parts[head.len() + k] == c);
                lemma_part_of_joined(parts, " AND "@, head.len() + k);
            },
            None => {
                assert(wanted(m) == Some(name_is(named->0)));
            },
        }
    }
}

proof fn lemma_selects_within(
    text: Seq<char>,
    a: Seq<char>,
    w: Seq<char>,
    b: Seq<char>,
    sel: SelectorView,
)
    requires
        text == a + w + b,
        selects(w, sel),
    ensures
        selects(text, sel),
{
    if sel.name is Some {
        lemma_part_of_part(text, a, w, b, name_is(sel.name->0));
    }
    assert forall|i: int|
        0 <= i < sel.matchers.len() && wanted(#[trigger] sel.matchers[i]) is Some implies has_part(
        text,
        wanted(sel.matchers[i])->0,
    ) by {
        lemma_part_of_part(text, a, w, b, wanted(sel.matchers[i])->0);
    }
}

/// The conditions on a selector's samples are those of its name and its matchers.
pub proof fn law_conditions_select(sel: SelectorView, from: i64, to: i64)
    ensures
        selects(where_conditions(sel, from, to), sel),
{
    lemma_joined_select(predicates(sel).push(time_condition(from, to)), sel);
}

/// The series of a selector are read by its name and its matchers, all of them
/// where it has neither.
pub proof fn law_series_are_read_by_their_selector(sel: SelectorView)
    ensures
        selects(series_text(sel), sel),
        begins(
            series_text(sel),
            "SELECT s.metric_name, s.labels FROM iceberg.skaldberg.series s"@,
        ),
        sel.name is None && sel.matchers.len() == 0 ==> series_text(sel)
            == "SELECT s.metric_name, s.labels FROM iceberg.skaldberg.series s"@,
{
    let head = "SELECT s.metric_name, s.labels FROM iceberg.skaldberg.series s"@;
    let text = series_text(sel);
    let none = Seq::<char>::empty();
    if predicates(sel).len() == 0 {
        assert(text =~= head + none);
        assert forall|i: int| 0 <= i < sel.matchers.len() implies wanted(
            #[trigger] sel.matchers[i],
        ) is None by {
            if condition(metric_of(sel), sel.matchers[i]) is Some {
                lemma_condition_at(metric_of(sel), sel.matchers, i);
            }
        }
        assert(text =~= head);
    } else {
        let w = joined(predicates(sel), " AND "@);
        lemma_joined_select(predicates(sel), sel);
        assert(text =~= head + (" WHERE "@ + w));
        assert(text =~= (head + " WHERE "@) + w + none);
        lemma_selects_within(text, head + " WHERE "@, w, none, sel);
    }
}

/// The values of a label are read from the series that have it; those of
/// `__name__` are the metrics' names.
pub proof fn law_label_values_are_read(name: Seq<char>)
    ensures
        name == "__name__"@ ==> begins(
            label_values_text(name),
            "SELECT DISTINCT metric_name AS v FROM iceberg.skaldberg.series"@,
        ),
        name != "__name__"@ ==> begins(
            label_values_text(name),
            "SELECT DISTINCT element_at(labels, '"@ + escaped(name)
                + "')[1] AS v FROM iceberg.skaldberg.series WHERE element_at(labels, '"@ + escaped(
                name,
            ) + "')[1] IS NOT NULL"@,
        ),
        ends_with(label_values_text(name), " ORDER BY v"@),
{
    let text = label_values_text(name);
    let order = " ORDER BY v"@;
    if name == "__name__"@ {
        let head = "SELECT DISTINCT metric_name AS v FROM iceberg.skaldberg.series"@;
        assert(text == head + order) by {
            reveal_strlit("SELECT DISTINCT metric_name AS v FROM iceberg.skaldberg.series ORDER BY v");
            reveal_strlit("SELECT DISTINCT metric_name AS v FROM iceberg.skaldberg.series");
            reveal_strlit(" ORDER BY v");
            assert(text =~= head + order);
        }
    } else {
        let end = "')[1] IS NOT NULL"@;
        assert("')[1] IS NOT NULL ORDER BY v"@ == end + order) by {
            reveal_strlit("')[1] IS NOT NULL ORDER BY v");
            reveal_strlit("')[1] IS NOT NULL");
            reveal_strlit(" ORDER BY v");
            assert("')[1] IS NOT NULL ORDER BY v"@ =~= end + order);
        }
        let front = "SELECT DISTINCT element_at(labels, '"@ + escaped(name)
            + "')[1] AS v FROM iceberg.skaldberg.series WHERE element_at(labels, '"@ + escaped(name);
        assert(text =~= (front + end) + order);
    }
}

proof fn lemma_statement(
    text: Seq<char>,
    a: Seq<char>,
    b: Seq<char>,
    sel: SelectorView,
    from: i64,
    to: i64,
)
    requires
        text == a + where_conditions(sel, from, to) + b,
    ensures
        reads(text, from, to),
        selects(text, sel),
{
    let w = where_conditions(sel, from, to);
    law_conditions_limit_the_time(sel, from, to);
    law_conditions_select(sel, from, to);
    lemma_part_of_part(
        text,
        a,
        w,
        b,
        "sa.timestamp BETWEEN TIMESTAMP '"@ + stamp(from) + "' AND TIMESTAMP '"@ + stamp(to) + "'"@,
    );
    lemma_selects_within(text, a, w, b, sel);
}

proof fn lemma_selector_text(sel: SelectorView, from: i64, to: i64)
    ensures
        reads(selector_text(sel, from, to), from, to),
        selects(selector_text(sel, from, to), sel),
{
    let w = where_conditions(sel, from, to);
    let text = selector_text(sel, from, to);
    let a = "SELECT s.metric_name, s.labels, sa.timestamp, sa.value\n         FROM iceberg.skaldberg.samples sa\n         JOIN iceberg.skaldberg.series s ON sa.series_id = s.series_id\n          WHERE "@;
    let b = "\n         ORDER BY s.metric_name, sa.timestamp"@;
    lemma_statement(text, a, b, sel, from, to);
}

// ---------- range functions ----------

/// Whether an expression is a range function of a range of a selector, of that many
/// microseconds.
pub open spec fn is_range_function(e: &QueryExpr, range_us: int) -> bool {
    &&& *e is Call
    &&& named_function(ascii_lowered(e->func@)) is Some
    &&& e->args@.len() > 0
    &&& e->args@[0] is MatrixSelector
    &&& e->args@[0]->range_us == range_us
    &&& 0 <= range_us <= i64::MAX
}

/// Over a range, a range function fetches its selector's samples, in one statement
/// that reads the window of every step: an instant is read exactly where it lies in
/// the window that ends at some instant from the start to the end.
pub proof fn law_a_range_function_reads_every_window<L: Fn(u64) -> String>(
    w: NumberWriter<L>,
    e: &QueryExpr,
    range_us: int,
    start_us: i64,
    end_us: i64,
)
    requires
        is_range_function(e, range_us),
        start_us - range_us >= i64::MIN,
    ensures
        range_statements(w, e, start_us, end_us).len() == 1,
        range_statements(w, e, start_us, end_us)[0].1 == Columns::Samples,
        selects(range_statements(w, e, start_us, end_us)[0].0, e->args@[0]->vs@),
        exists|from: i64, to: i64|
            {
                &&& #[trigger] reads(range_statements(w, e, start_us, end_us)[0].0, from, to)
                &&& forall|t: int, x: int|
                    start_us <= t <= end_us && #[trigger] in_window(x, t, range_us) ==> from <= x
                        <= to
                &&& start_us <= end_us ==> forall|x: int|
                    from <= x <= to ==> #[trigger] in_some_window(x, start_us as int, end_us as int, range_us)
            },
{
    law_range_functions_by_their_names(e);
    let sel = e->args@[0]->vs@;
    let from = (start_us - range_us) as i64;
    let text = range_statements(w, e, start_us, end_us)[0].0;
    lemma_selector_text(sel, from, end_us);
    assert(reads(text, from, end_us));
    assert forall|t: int, x: int|
        start_us <= t <= end_us && #[trigger] in_window(x, t, range_us) implies from <= x
        <= end_us by {}
    if start_us <= end_us {
        assert forall|x: int| from <= x <= end_us implies #[trigger] in_some_window(
            x,
            start_us as int,
            end_us as int,
            range_us,
        ) by {
            let t = if x < start_us {
                start_us as int
            } else {
                x
            };
            assert(in_window(x, t, range_us));
        }
    }
}

/// Whether an instant lies in the window that ends at `t` and reaches `range` back.
pub open spec fn in_window(x: int, t: int, range: int) -> bool {
    t - range <= x <= t
}

/// Whether an instant lies in the window that ends at some instant from the start
/// to the end.
pub open spec fn in_some_window(x: int, start: int, end: int, range: int) -> bool {
    exists|t: int| start <= t <= end && #[trigger] in_window(x, t, range)
}

/// The samples with their series.
pub open spec fn joined_tables() -> Seq<char> {
    "FROM iceberg.skaldberg.samples sa JOIN iceberg.skaldberg.series s ON sa.series_id = s.series_id "@
}

/// The samples of each series numbered, the latest first.
pub open spec fn latest_first() -> Seq<char> {
    "ROW_NUMBER() OVER (PARTITION BY sa.series_id ORDER BY sa.timestamp DESC) AS rn "@
}

/// How the statement of a range function begins.
pub open spec fn function_head() -> Seq<char> {
    "WITH base AS ( SELECT sa.series_id, CAST(sa.timestamp AS BIGINT) AS ts_us, sa.value + 0.0 AS value "@ + joined_tables() + "WHERE "@
}

/// What the statement of a range function computes, from the samples of its window
/// on: for `increase` and `rate` what the values climbed, a lower value being a climb
/// from zero; for `rate` per second; for `irate` the climb from the sample before the
/// latest to the latest, per second; for `delta` the last value less the first.
pub open spec fn function_text(op: RangeFnOp) -> Seq<char> {
    let totals =
        " ), adjusted AS ( SELECT series_id, ts_us, value, LAG(value) OVER w AS prev_v FROM base WINDOW w AS (PARTITION BY series_id ORDER BY ts_us) ), agg AS ( SELECT series_id, SUM(CASE WHEN prev_v IS NULL THEN CAST(0.0 AS DOUBLE) WHEN value >= prev_v THEN value - prev_v ELSE value END) AS total_delta, MAX(ts_us) AS last_ts_us, MIN(ts_us) AS first_ts_us, COUNT(*) AS n FROM adjusted GROUP BY series_id ) SELECT s.metric_name, s.labels, ("@;
    let end =
        ") AS v FROM agg a JOIN iceberg.skaldberg.series s ON a.series_id = s.series_id WHERE a.n >= 2 AND a.last_ts_us > a.first_ts_us"@;
    match op {
        RangeFnOp::Rate => totals + "total_delta * 1000000.0 / (last_ts_us - first_ts_us)"@ + end,
        RangeFnOp::Increase => totals + "total_delta"@ + end,
        RangeFnOp::Irate =>
            " ), ranked AS ( SELECT series_id, ts_us, value, LAG(value) OVER w AS prev_v, LAG(ts_us) OVER w AS prev_ts_us, ROW_NUMBER() OVER (PARTITION BY series_id ORDER BY ts_us DESC) AS rn_desc, COUNT(*) OVER (PARTITION BY series_id) AS total_n FROM base WINDOW w AS (PARTITION BY series_id ORDER BY ts_us) ) SELECT s.metric_name, s.labels, ((CASE WHEN value >= prev_v THEN value - prev_v ELSE value END) * 1000000.0 / (ts_us - prev_ts_us)) AS v FROM ranked r JOIN iceberg.skaldberg.series s ON r.series_id = s.series_id WHERE r.rn_desc = 1 AND r.total_n >= 2 AND r.ts_us > r.prev_ts_us"@,
        RangeFnOp::Delta =>
            " ), ranked AS ( SELECT series_id, ts_us, value, ROW_NUMBER() OVER (PARTITION BY series_id ORDER BY ts_us ASC) AS rn_asc, ROW_NUMBER() OVER (PARTITION BY series_id ORDER BY ts_us DESC) AS rn_desc, COUNT(*) OVER (PARTITION BY series_id) AS total_n FROM base ), endpoints AS ( SELECT series_id, ts_us AS first_ts_us, value AS first_v, total_n FROM ranked WHERE rn_asc = 1 ), last_v AS ( SELECT series_id, ts_us AS last_ts_us, value AS last_val FROM ranked WHERE rn_desc = 1 ) SELECT s.metric_name, s.labels, (l.last_val - e.first_v) AS v FROM endpoints e JOIN last_v l ON e.series_id = l.series_id JOIN iceberg.skaldberg.series s ON e.series_id = s.series_id WHERE e.total_n >= 2 AND l.last_ts_us > e.first_ts_us"@,
    }
}

/// At an instant, a range function is computed over its selector's samples of the
/// window that ends there, and over no others.
pub proof fn law_a_range_function_reads_its_window<L: Fn(u64) -> String>(
    w: NumberWriter<L>,
    e: &QueryExpr,
    range_us: int,
    time_us: i64,
)
    requires
        is_range_function(e, range_us),
        time_us - range_us >= i64::MIN,
    ensures
        instant_statements(w, e, time_us).len() == 1,
        instant_statements(w, e, time_us)[0].1 == Columns::Values,
        selects(instant_statements(w, e, time_us)[0].0, e->args@[0]->vs@),
        reads(instant_statements(w, e, time_us)[0].0, (time_us - range_us) as i64, time_us),
        begins(instant_statements(w, e, time_us)[0].0, function_head()),
        ends_with(
            instant_statements(w, e, time_us)[0].0,
            function_text(named_function(ascii_lowered(e->func@))->0),
        ),
{
    law_range_functions_by_their_names(e);
    let sel = e->args@[0]->vs@;
    let op = named_function(ascii_lowered(e->func@))->0;
    lemma_range_fn_text(op, sel, (time_us - range_us) as i64, time_us);
}

proof fn lemma_range_fn_text(op: RangeFnOp, sel: SelectorView, from: i64, to: i64)
    ensures
        ({
            let text = range_fn_text(op, "WHERE "@ + where_conditions(sel, from, to));
            &&& reads(text, from, to)
            &&& selects(text, sel)
            &&& begins(text, function_head())
            &&& ends_with(text, function_text(op))
        }),
{
    let w = where_conditions(sel, from, to);
    let text = range_fn_text(op, "WHERE "@ + w);
    let a = function_head();
    let b = function_text(op);
    assert(text =~= a + w + b);
    lemma_statement(text, a, b, sel, from, to);
    assert(text =~= a + (w + b));
    assert(text =~= (a + w) + b);
}

// ---------- the other statements ----------

/// Groups by labels, where there are any.
pub open spec fn grouped_by(keys: Seq<Seq<char>>) -> Seq<char> {
    if keys.len() == 0 {
        Seq::empty()
    } else {
        " GROUP BY "@ + joined(label_texts(keys), ", "@)
    }
}

/// Groups by time and labels, in the order of labels and then of time.
pub open spec fn grouped_by_time(keys: Seq<Seq<char>>) -> Seq<char> {
    " GROUP BY "@ + joined(seq!["sa.timestamp"@] + label_texts(keys), ", "@) + " ORDER BY "@ + joined(
        label_texts(keys).push("sa.timestamp"@),
        ", "@,
    )
}

/// Each label is a column of its own, by its name and numbered in order.
pub proof fn law_labels_are_columns(keys: Seq<Seq<char>>, key: Seq<char>)
    ensures
        label_columns(Seq::<Seq<char>>::empty()) == Seq::<char>::empty(),
        label_columns(keys.push(key)) == label_columns(keys) + ("element_at(s.labels, '"@ + escaped(
            key,
        ) + "')[1]"@) + " AS lbl_"@ + decimal(keys.len()) + ", "@,
        label_texts(keys).len() == keys.len(),
        forall|i: int|
            0 <= i < keys.len() ==> #[trigger] label_texts(keys)[i] == "element_at(s.labels, '"@
                + escaped(keys[i]) + "')[1]"@,
{
    assert(keys.push(key).drop_last() =~= keys);
}

proof fn lemma_instant_aggregate(sel: SelectorView, op: AggOp, keys: Seq<Seq<char>>, time_us: i64)
    requires
        time_us - 5 * 60 * 1_000_000 >= i64::MIN,
    ensures
        ({
            let text = instant_aggregate_text(sel, op, keys, time_us);
            &&& reads(text, (time_us - 5 * 60 * 1_000_000) as i64, time_us)
            &&& selects(text, sel)
            &&& begins(
                text,
                "WITH ws AS ( SELECT sa.series_id, sa.value, sa.timestamp, "@ + latest_first()
                    + joined_tables() + " WHERE "@,
            )
            &&& ends_with(
                text,
                " ) SELECT "@ + (label_columns(keys) + agg_call(op, "ws.value"@)
                    + " AS agg_v FROM ws JOIN iceberg.skaldberg.series s ON ws.series_id = s.series_id WHERE ws.rn = 1"@)
                    + grouped_by(keys),
            )
        }),
{
    let from = (time_us - 5 * 60 * 1_000_000) as i64;
    let w = where_conditions(sel, from, time_us);
    let text = instant_aggregate_text(sel, op, keys, time_us);
    let a = "WITH ws AS ( SELECT sa.series_id, sa.value, sa.timestamp, "@ + LATEST_FIRST@
        + FROM_JOINED@ + " WHERE "@;
    let tail = if keys.len() == 0 {
        Seq::empty()
    } else {
        " GROUP BY "@ + joined(label_texts(keys), ", "@)
    };
    let part = label_columns(keys) + agg_call(op, "ws.value"@)
        + " AS agg_v FROM ws JOIN iceberg.skaldberg.series s ON ws.series_id = s.series_id WHERE ws.rn = 1"@;
    let b = " ) SELECT "@ + part + tail;
    assert(text =~= a + w + b);
    lemma_statement(text, a, b, sel, from, time_us);
    assert(text =~= a + (w + b));
    assert(text =~= (a + w) + b);
}

proof fn lemma_range_aggregate(
    sel: SelectorView,
    op: AggOp,
    keys: Seq<Seq<char>>,
    start_us: i64,
    end_us: i64,
)
    ensures
        ({
            let text = range_aggregate_text(sel, op, keys, start_us, end_us);
            &&& reads(text, start_us, end_us)
            &&& selects(text, sel)
            &&& begins(
                text,
                "SELECT sa.timestamp, "@ + label_columns(keys) + agg_call(op, "sa.value"@)
                    + " AS agg_v "@ + joined_tables() + " WHERE "@,
            )
            &&& ends_with(text, grouped_by_time(keys))
        }),
{
    let w = where_conditions(sel, start_us, end_us);
    let text = range_aggregate_text(sel, op, keys, start_us, end_us);
    let labels = label_texts(keys);
    let part = "SELECT sa.timestamp, "@ + label_columns(keys) + agg_call(op, "sa.value"@)
        + " AS agg_v "@;
    let a = part + FROM_JOINED@ + " WHERE "@;
    let b = " GROUP BY "@ + joined(seq!["sa.timestamp"@] + labels, ", "@) + " ORDER BY "@ + joined(
        labels.push("sa.timestamp"@),
        ", "@,
    );
    assert(text =~= a + w + b);
    lemma_statement(text, a, b, sel, start_us, end_us);
    assert(text =~= a + (w + b));
    assert(text =~= (a + w) + b);
}

/// How an instant ranking ends: by value in a direction, cut after so many.
pub open spec fn ranks_latest(text: Seq<char>, descending: bool, n: nat) -> bool {
    ends_with(
        text,
        "ORDER BY l.value "@ + (if descending {
            "DESC"@
        } else {
            "ASC"@
        })
            + ") AS rnk FROM latest l JOIN iceberg.skaldberg.series s ON l.series_id = s.series_id WHERE l.rn = 1 ) SELECT s.metric_name, s.labels, rk.value FROM ranked rk JOIN iceberg.skaldberg.series s ON rk.series_id = s.series_id WHERE rk.rnk <= "@
            + decimal(n),
    )
}

/// How a ranking at every timestamp begins and ends: within the timestamp and the
/// labels, by value in a direction, cut after so many.
pub open spec fn ranks_each(
    text: Seq<char>,
    descending: bool,
    n: nat,
    keys: Seq<Seq<char>>,
) -> bool {
    &&& begins(
        text,
        "WITH ranked AS ( SELECT sa.series_id, sa.timestamp, sa.value, ROW_NUMBER() OVER (PARTITION BY "@
            + joined(seq!["sa.timestamp"@] + label_texts(keys), ", "@) + " ORDER BY sa.value "@ + (
        if descending {
            "DESC"@
        } else {
            "ASC"@
        }) + ") AS rnk "@,
    )
    &&& ends_with(
        text,
        " ) SELECT s.metric_name, s.labels, rk.timestamp, rk.value FROM ranked rk JOIN iceberg.skaldberg.series s ON rk.series_id = s.series_id WHERE rk.rnk <= "@
            + decimal(n) + " ORDER BY s.metric_name, rk.timestamp"@,
    )
}

proof fn lemma_instant_topk(
    sel: SelectorView,
    n: usize,
    top: bool,
    keys: Seq<Seq<char>>,
    time_us: i64,
)
    requires
        time_us - 5 * 60 * 1_000_000 >= i64::MIN,
    ensures
        ({
            let text = instant_topk_text(sel, n, top, keys, time_us);
            &&& reads(text, (time_us - 5 * 60 * 1_000_000) as i64, time_us)
            &&& selects(text, sel)
            &&& begins(
                text,
                "WITH latest AS ( SELECT sa.series_id, sa.value, "@ + latest_first()
                    + joined_tables() + " WHERE "@,
            )
            &&& ranks_latest(text, top, n as nat)
            &&& keys.len() > 0 ==> has_part(
                text,
                "PARTITION BY "@ + joined(label_texts(keys), ", "@) + " "@ + "ORDER BY l.value "@,
            )
            &&& keys.len() == 0 ==> has_part(
                text,
                " ), ranked AS ( SELECT l.series_id, l.value, ROW_NUMBER() OVER ("@
                    + "ORDER BY l.value "@,
            )
        }),
{
    let from = (time_us - 5 * 60 * 1_000_000) as i64;
    let w = where_conditions(sel, from, time_us);
    let text = instant_topk_text(sel, n, top, keys, time_us);
    let a = "WITH latest AS ( SELECT sa.series_id, sa.value, "@ + LATEST_FIRST@ + FROM_JOINED@
        + " WHERE "@;
    let over = " ), ranked AS ( SELECT l.series_id, l.value, ROW_NUMBER() OVER ("@;
    let partition = if keys.len() == 0 {
        Seq::empty()
    } else {
        "PARTITION BY "@ + joined(label_texts(keys), ", "@) + " "@
    };
    let order = "ORDER BY l.value "@;
    let dir = if top {
        "DESC"@
    } else {
        "ASC"@
    };
    let rest = ") AS rnk FROM latest l JOIN iceberg.skaldberg.series s ON l.series_id = s.series_id WHERE l.rn = 1 ) SELECT s.metric_name, s.labels, rk.value FROM ranked rk JOIN iceberg.skaldberg.series s ON rk.series_id = s.series_id WHERE rk.rnk <= "@;
    let end = order + dir + rest + decimal(n as nat);
    lemma_ranked_parts(a, w, over, partition, order, dir, rest, decimal(n as nat));
    assert(text == a + w + over + partition + order + dir + rest + decimal(n as nat));
    lemma_statement(text, a, over + partition + end, sel, from, time_us);
    assert(text =~= a + (w + (over + partition + end)));
    assert(text == (a + w + over + partition) + end);
    if keys.len() > 0 {
        lemma_part(text, a + w + over, partition + order, dir + rest + decimal(n as nat));
    } else {
        assert(over + partition + order =~= over + order);
        lemma_part(text, a + w, over + order, dir + rest + decimal(n as nat));
    }
}

proof fn lemma_ranked_parts(
    a: Seq<char>,
    w: Seq<char>,
    over: Seq<char>,
    partition: Seq<char>,
    order: Seq<char>,
    dir: Seq<char>,
    rest: Seq<char>,
    n: Seq<char>,
)
    ensures
        ({
            let text = a + w + over + partition + order + dir + rest + n;
            &&& text == a + w + (over + partition + (order + dir + rest + n))
            &&& text == (a + w + over + partition) + (order + dir + rest + n)
            &&& text == (a + w + over) + (partition + order) + (dir + rest + n)
            &&& text == (a + w) + (over + partition + order) + (dir + rest + n)
        }),
{
    let text = a + w + over + partition + order + dir + rest + n;
    assert(text =~= a + w + (over + partition + (order + dir + rest + n)));
    assert(text =~= (a + w + over + partition) + (order + dir + rest + n));
    assert(text =~= (a + w + over) + (partition + order) + (dir + rest + n));
    assert(text =~= (a + w) + (over + partition + order) + (dir + rest + n));
}

proof fn lemma_range_topk(
    sel: SelectorView,
    n: usize,
    top: bool,
    keys: Seq<Seq<char>>,
    start_us: i64,
    end_us: i64,
)
    ensures
        ({
            let text = range_topk_text(sel, n, top, keys, start_us, end_us);
            &&& reads(text, start_us, end_us)
            &&& selects(text, sel)
            &&& ranks_each(text, top, n as nat, keys)
        }),
{
    let w = where_conditions(sel, start_us, end_us);
    let text = range_topk_text(sel, n, top, keys, start_us, end_us);
    let head = "WITH ranked AS ( SELECT sa.series_id, sa.timestamp, sa.value, ROW_NUMBER() OVER (PARTITION BY "@;
    let dir = if top {
        "DESC"@
    } else {
        "ASC"@
    };
    let part = head + joined(seq!["sa.timestamp"@] + label_texts(keys), ", "@)
        + " ORDER BY sa.value "@ + dir + ") AS rnk "@;
    let end = " ) SELECT s.metric_name, s.labels, rk.timestamp, rk.value FROM ranked rk JOIN iceberg.skaldberg.series s ON rk.series_id = s.series_id WHERE rk.rnk <= "@
        + decimal(n as nat) + " ORDER BY s.metric_name, rk.timestamp"@;
    let a = part + FROM_JOINED@ + " WHERE "@;
    assert(text =~= a + w + end);
    lemma_statement(text, a, end, sel, start_us, end_us);
    assert(text =~= part + (FROM_JOINED@ + " WHERE "@ + w + end));
    assert(text =~= (a + w) + end);
}

/// What an aggregation is called in SQL, on a column.
pub open spec fn sql_call(op: AggOp, column: Seq<char>) -> Seq<char> {
    match op {
        AggOp::Sum => "SUM("@ + column + ")"@,
        AggOp::Avg => "AVG("@ + column + ")"@,
        AggOp::Min => "MIN("@ + column + ")"@,
        AggOp::Max => "MAX("@ + column + ")"@,
        AggOp::Count => "CAST(COUNT(*) AS DOUBLE)"@,
    }
}

/// Whether SQL can group by a modifier, and decides a selector alone.
pub open spec fn sql_decides(modifier: Option<Grouping>, inner: &QueryExpr) -> bool {
    &&& modifier is None || modifier->0 is Include
    &&& bare_selector(inner) is Some
    &&& !needs_row_filter(bare_selector(inner)->0)
}

/// The labels that a modifier lists.
pub open spec fn listed(modifier: Option<Grouping>) -> Seq<Seq<char>> {
    match modifier {
        Some(Grouping::Include(names)) => Seq::new(names@.len(), |i: int| names@[i]@),
        _ => Seq::empty(),
    }
}

proof fn lemma_listed(modifier: Option<Grouping>)
    ensures
        group_keys(by_ref(modifier)) == listed(modifier),
{
    assert(group_keys(by_ref(modifier)) =~= listed(modifier));
}

/// An aggregation that SQL computes is one statement: at an instant over the latest
/// samples that its selector looks back on, over a range over every sample of the
/// range, by the labels of its grouping, with the call that its name says.
pub proof fn law_an_aggregation_in_sql<L: Fn(u64) -> String>(
    w: NumberWriter<L>,
    e: &QueryExpr,
    time_us: i64,
    start_us: i64,
    end_us: i64,
)
    requires
        *e is Aggregate,
        named_aggregation(e->Aggregate_op@) is Some,
        sql_decides(e->modifier, &e->Aggregate_expr),
        time_us - 5 * 60 * 1_000_000 >= i64::MIN,
        listed(e->modifier).len() <= usize::MAX,
    ensures
        ({
            let op = named_aggregation(e->Aggregate_op@)->0;
            let sel = bare_selector(&e->Aggregate_expr)->0@;
            let keys = listed(e->modifier);
            let now = instant_statements(w, e, time_us);
            let over = range_statements(w, e, start_us, end_us);
            &&& now.len() == 1
            &&& now[0].1 == Columns::Groups(keys.len() as usize, time_us)
            &&& reads(now[0].0, (time_us - 300_000_000) as i64, time_us)
            &&& selects(now[0].0, sel)
            &&& begins(
                now[0].0,
                "WITH ws AS ( SELECT sa.series_id, sa.value, sa.timestamp, "@ + latest_first()
                    + joined_tables() + " WHERE "@,
            )
            &&& ends_with(
                now[0].0,
                " ) SELECT "@ + (label_columns(keys) + sql_call(op, "ws.value"@)
                    + " AS agg_v FROM ws JOIN iceberg.skaldberg.series s ON ws.series_id = s.series_id WHERE ws.rn = 1"@)
                    + grouped_by(keys),
            )
            &&& over.len() == 1
            &&& over[0].1 == Columns::TimedGroups(keys.len() as usize)
            &&& reads(over[0].0, start_us, end_us)
            &&& selects(over[0].0, sel)
            &&& begins(
                over[0].0,
                "SELECT sa.timestamp, "@ + label_columns(keys) + sql_call(op, "sa.value"@)
                    + " AS agg_v "@ + joined_tables() + " WHERE "@,
            )
            &&& ends_with(over[0].0, grouped_by_time(keys))
        }),
{
    law_reductions_by_their_names(e);
    lemma_listed(e->modifier);
    let op = named_aggregation(e->Aggregate_op@)->0;
    let sel = bare_selector(&e->Aggregate_expr)->0@;
    let keys = listed(e->modifier);
    lemma_instant_aggregate(sel, op, keys, time_us);
    lemma_range_aggregate(sel, op, keys, start_us, end_us);
}

/// A ranking that SQL computes is one statement: at an instant over the latest
/// samples that its selector looks back on, over a range over every sample of the
/// range and each timestamp by itself; within the labels of its grouping, by value,
/// from the greatest down for `topk` and from the least up for `bottomk`, cut after
/// as many as its number says. Nothing is fetched where that is none.
pub proof fn law_a_ranking_in_sql<L: Fn(u64) -> String>(
    w: NumberWriter<L>,
    e: &QueryExpr,
    time_us: i64,
    start_us: i64,
    end_us: i64,
)
    requires
        is_ranking(e),
        sql_decides(e->modifier, &e->Aggregate_expr),
        time_us - 5 * 60 * 1_000_000 >= i64::MIN,
    ensures
        ({
            let top = is_topk(e->Aggregate_op@);
            let n = count_of(e->param->0->NumberLiteral_0);
            let sel = bare_selector(&e->Aggregate_expr)->0@;
            let keys = listed(e->modifier);
            let now = instant_statements(w, e, time_us);
            let over = range_statements(w, e, start_us, end_us);
            if n == 0 {
                now.len() == 0 && over.len() == 0
            } else {
                &&& now.len() == 1
                &&& now[0].1 == Columns::Latest(time_us)
                &&& reads(now[0].0, (time_us - 300_000_000) as i64, time_us)
                &&& selects(now[0].0, sel)
                &&& begins(
                    now[0].0,
                    "WITH latest AS ( SELECT sa.series_id, sa.value, "@ + latest_first()
                        + joined_tables() + " WHERE "@,
                )
                &&& ranks_latest(now[0].0, top, n as nat)
                &&& keys.len() > 0 ==> has_part(
                    now[0].0,
                    "PARTITION BY "@ + joined(label_texts(keys), ", "@) + " "@
                        + "ORDER BY l.value "@,
                )
                &&& keys.len() == 0 ==> has_part(
                    now[0].0,
                    " ), ranked AS ( SELECT l.series_id, l.value, ROW_NUMBER() OVER ("@
                        + "ORDER BY l.value "@,
                )
                &&& over.len() == 1
                &&& over[0].1 == Columns::Samples
                &&& reads(over[0].0, start_us, end_us)
                &&& selects(over[0].0, sel)
                &&& ranks_each(over[0].0, top, n as nat, keys)
            }
        }),
{
    law_rankings_by_their_names(e);
    lemma_listed(e->modifier);
    let top = is_topk(e->Aggregate_op@);
    let n = count_of(e->param->0->NumberLiteral_0);
    let sel = bare_selector(&e->Aggregate_expr)->0@;
    let keys = listed(e->modifier);
    lemma_instant_topk(sel, n, top, keys, time_us);
    lemma_range_topk(sel, n, top, keys, start_us, end_us);
}

/// Whether two series have the same values of some labels.
pub open spec fn same_values(keys: Seq<Seq<char>>, a: PointView, b: PointView) -> bool {
    forall|i: int|
        0 <= i < keys.len() ==> lookup(a.labels, #[trigger] keys[i]) == lookup(b.labels, keys[i])
}

/// Whether points are cut into kept and dropped ones by value in a direction: of
/// two points of one group, the one that is kept does not come after the one that
/// is dropped.
pub open spec fn is_cut(
    points: Seq<PointView>,
    kept: Seq<PointView>,
    dropped: Seq<PointView>,
    keys: Seq<Seq<char>>,
    descending: bool,
) -> bool {
    &&& (kept + dropped).to_multiset() == points.to_multiset()
    &&& forall|i: int, j: int|
        0 <= i < kept.len() && 0 <= j < dropped.len() && same_values(
            keys,
            #[trigger] kept[i],
            #[trigger] dropped[j],
        ) ==> !if descending {
            less_bits(kept[i].value, dropped[j].value)
        } else {
            less_bits(dropped[j].value, kept[i].value)
        }
}

/// Of rows that a ranking statement returns, in the direction that it states, no
/// series that `topk` leaves out has a greater value than one that it keeps of its
/// group, and none that `bottomk` leaves out a lesser.
pub proof fn law_a_ranking_in_sql_keeps_the_best<L: Fn(u64) -> String>(
    w: NumberWriter<L>,
    e: &QueryExpr,
    time_us: i64,
    points: Seq<PointView>,
    kept: Seq<PointView>,
    dropped: Seq<PointView>,
    i: int,
    j: int,
)
    requires
        is_ranking(e),
        sql_decides(e->modifier, &e->Aggregate_expr),
        time_us - 5 * 60 * 1_000_000 >= i64::MIN,
        count_of(e->param->0->NumberLiteral_0) > 0,
        forall|descending: bool|
            ranks_latest(
                instant_statements(w, e, time_us)[0].0,
                descending,
                count_of(e->param->0->NumberLiteral_0) as nat,
            ) ==> #[trigger] is_cut(points, kept, dropped, listed(e->modifier), descending),
        0 <= i < kept.len(),
        0 <= j < dropped.len(),
        same_values(listed(e->modifier), kept[i], dropped[j]),
    ensures
        is_topk(e->Aggregate_op@) ==> !less_bits(kept[i].value, dropped[j].value),
        !is_topk(e->Aggregate_op@) ==> !less_bits(dropped[j].value, kept[i].value),
{
    law_a_ranking_in_sql(w, e, time_us, 0, 0);
    assert(is_cut(points, kept, dropped, listed(e->modifier), is_topk(e->Aggregate_op@)));
}

// ---------- a scalar and a selector ----------

/// SQL's sign of a comparison.
pub open spec fn sql_sign(op: BinOp) -> Seq<char> {
    match op {
        BinOp::Eq => "="@,
        BinOp::Ne => "<>"@,
        BinOp::Lt => "<"@,
        BinOp::Le => "<="@,
        BinOp::Gt => ">"@,
        _ => ">="@,
    }
}

/// SQL's expression of an operator on two expressions.
pub open spec fn sql_value(op: BinOp, l: Seq<char>, r: Seq<char>) -> Seq<char> {
    match op {
        BinOp::Add => "("@ + l + ") + ("@ + r + ")"@,
        BinOp::Sub => "("@ + l + ") - ("@ + r + ")"@,
        BinOp::Mul => "("@ + l + ") * ("@ + r + ")"@,
        BinOp::Div => "("@ + l + ") / ("@ + r + ")"@,
        BinOp::Mod => "("@ + l + ") % ("@ + r + ")"@,
        BinOp::Pow => "power(("@ + l + "), ("@ + r + "))"@,
        _ => "CAST(CASE WHEN "@ + l + " "@ + sql_sign(op) + " "@ + r
            + " THEN 1.0 ELSE 0.0 END AS DOUBLE)"@,
    }
}

/// The name column, the value column and the further condition of an operator
/// between a left and a right expression, one of which is the column: a comparison
/// without `bool` keeps name and value where it holds, anything else computes a
/// nameless value.
pub open spec fn sql_columns(
    op: BinOp,
    return_bool: bool,
    l: Seq<char>,
    r: Seq<char>,
    column: Seq<char>,
) -> (Seq<char>, Seq<char>, Seq<char>) {
    if is_comparing(op) && !return_bool {
        ("s.metric_name"@, column, " AND ("@ + l + " "@ + sql_sign(op) + " "@ + r + ")"@)
    } else {
        ("''"@, sql_value(op, l, r), Seq::empty())
    }
}

/// Whether an expression is an operator between a finite number and a selector
/// whose name needs no filter.
pub open spec fn is_scalar_operation(e: &QueryExpr, scalar: u64, scalar_on_left: bool) -> bool {
    &&& *e is Binary
    &&& signed_operator(e->Binary_op@) is Some
    &&& is_finite_bits(scalar)
    &&& *scalar_side(e, scalar_on_left) == QueryExpr::NumberLiteral(scalar)
    &&& bare_selector(scalar_side(e, !scalar_on_left)) is Some
    &&& !needs_names(bare_selector(scalar_side(e, !scalar_on_left))->0)
}

/// The operand on one side.
pub open spec fn scalar_side<'a>(e: &'a QueryExpr, left: bool) -> &'a QueryExpr {
    if left {
        &e->lhs
    } else {
        &e->rhs
    }
}

/// An operator between a number and a selector is one statement, which has the
/// number on its side of the operator: at an instant over the latest samples that
/// the selector looks back on, over a range over every sample of the range.
pub proof fn law_a_scalar_operation_in_sql<L: Fn(u64) -> String>(
    w: NumberWriter<L>,
    e: &QueryExpr,
    scalar: u64,
    scalar_on_left: bool,
    time_us: i64,
    start_us: i64,
    end_us: i64,
)
    requires
        is_scalar_operation(e, scalar, scalar_on_left),
        time_us - 5 * 60 * 1_000_000 >= i64::MIN,
    ensures
        ({
            let op = signed_operator(e->Binary_op@)->0;
            let sel = bare_selector(scalar_side(e, !scalar_on_left))->0@;
            let number = "CAST("@ + w.text(scalar) + " AS DOUBLE)"@;
            let now = instant_statements(w, e, time_us);
            let over = range_statements(w, e, start_us, end_us);
            let (m, v, x) = if scalar_on_left {
                sql_columns(op, e->return_bool, number, "l.value"@, "l.value"@)
            } else {
                sql_columns(op, e->return_bool, "l.value"@, number, "l.value"@)
            };
            let (rm, rv, rx) = if scalar_on_left {
                sql_columns(op, e->return_bool, number, "sa.value"@, "sa.value"@)
            } else {
                sql_columns(op, e->return_bool, "sa.value"@, number, "sa.value"@)
            };
            &&& now.len() == 1
            &&& now[0].1 == Columns::Latest(time_us)
            &&& reads(now[0].0, (time_us - 300_000_000) as i64, time_us)
            &&& selects(now[0].0, sel)
            &&& begins(
                now[0].0,
                "WITH latest AS ( SELECT sa.series_id, sa.value, "@ + latest_first()
                    + joined_tables() + " WHERE "@,
            )
            &&& ends_with(
                now[0].0,
                " ) SELECT "@ + m + " AS metric_name, s.labels, ("@ + v
                    + ") AS value FROM latest l JOIN iceberg.skaldberg.series s ON l.series_id = s.series_id WHERE l.rn = 1"@
                    + x,
            )
            &&& over.len() == 1
            &&& over[0].1 == Columns::Samples
            &&& reads(over[0].0, start_us, end_us)
            &&& selects(over[0].0, sel)
            &&& begins(
                over[0].0,
                "SELECT "@ + rm + " AS m_name, s.labels, sa.timestamp, ("@ + rv + ") AS value "@,
            )
            &&& ends_with(over[0].0, rx + " ORDER BY s.metric_name, sa.timestamp"@)
        }),
{
    law_operations_by_their_signs(e);
    let op = signed_operator(e->Binary_op@)->0;
    let rb = e->return_bool;
    let sel = bare_selector(scalar_side(e, !scalar_on_left))->0@;
    let number = number_literal(w, scalar);
    lemma_bare_not_number(scalar_side(e, !scalar_on_left));
    lemma_row_operation(number, "l.value"@, op, rb, scalar_on_left);
    lemma_row_operation(number, "sa.value"@, op, rb, scalar_on_left);
    lemma_scalar_instant(sel, number, op, rb, scalar_on_left, time_us);
    lemma_scalar_range(sel, number, op, rb, scalar_on_left, start_us, end_us);
}

proof fn lemma_row_operation(
    number: Seq<char>,
    column: Seq<char>,
    op: BinOp,
    return_bool: bool,
    scalar_on_left: bool,
)
    ensures
        row_operation(number, column, op, return_bool, scalar_on_left) == if scalar_on_left {
            sql_columns(op, return_bool, number, column, column)
        } else {
            sql_columns(op, return_bool, column, number, column)
        },
{
}

proof fn lemma_scalar_instant(
    sel: SelectorView,
    number: Seq<char>,
    op: BinOp,
    return_bool: bool,
    scalar_on_left: bool,
    time_us: i64,
)
    requires
        time_us - 5 * 60 * 1_000_000 >= i64::MIN,
    ensures
        ({
            let text = scalar_instant_text(sel, number, op, return_bool, scalar_on_left, time_us);
            let (m, v, x) = row_operation(number, "l.value"@, op, return_bool, scalar_on_left);
            &&& reads(text, (time_us - 5 * 60 * 1_000_000) as i64, time_us)
            &&& selects(text, sel)
            &&& begins(
                text,
                "WITH latest AS ( SELECT sa.series_id, sa.value, "@ + latest_first()
                    + joined_tables() + " WHERE "@,
            )
            &&& ends_with(
                text,
                " ) SELECT "@ + m + " AS metric_name, s.labels, ("@ + v
                    + ") AS value FROM latest l JOIN iceberg.skaldberg.series s ON l.series_id = s.series_id WHERE l.rn = 1"@
                    + x,
            )
        }),
{
    let from = (time_us - 5 * 60 * 1_000_000) as i64;
    let text = scalar_instant_text(sel, number, op, return_bool, scalar_on_left, time_us);
    let (m, v, x) = row_operation(number, "l.value"@, op, return_bool, scalar_on_left);
    let c = where_conditions(sel, from, time_us);
    let a = "WITH latest AS ( SELECT sa.series_id, sa.value, "@ + LATEST_FIRST@ + FROM_JOINED@
        + " WHERE "@;
    let b = " ) SELECT "@ + m + " AS metric_name, s.labels, ("@ + v
        + ") AS value FROM latest l JOIN iceberg.skaldberg.series s ON l.series_id = s.series_id WHERE l.rn = 1"@
        + x;
    assert(text =~= a + c + b);
    lemma_statement(text, a, b, sel, from, time_us);
    assert(text =~= a + (c + b));
    assert(text =~= (a + c) + b);
}

proof fn lemma_scalar_range(
    sel: SelectorView,
    number: Seq<char>,
    op: BinOp,
    return_bool: bool,
    scalar_on_left: bool,
    start_us: i64,
    end_us: i64,
)
    ensures
        ({
            let text = scalar_range_text(
                sel,
                number,
                op,
                return_bool,
                scalar_on_left,
                start_us,
                end_us,
            );
            let (m, v, x) = row_operation(number, "sa.value"@, op, return_bool, scalar_on_left);
            &&& reads(text, start_us, end_us)
            &&& selects(text, sel)
            &&& begins(
                text,
                "SELECT "@ + m + " AS m_name, s.labels, sa.timestamp, ("@ + v + ") AS value "@,
            )
            &&& ends_with(text, x + " ORDER BY s.metric_name, sa.timestamp"@)
        }),
{
    let text = scalar_range_text(sel, number, op, return_bool, scalar_on_left, start_us, end_us);
    let (m, v, x) = row_operation(number, "sa.value"@, op, return_bool, scalar_on_left);
    let c = where_conditions(sel, start_us, end_us);
    let head = "SELECT "@ + m + " AS m_name, s.labels, sa.timestamp, ("@ + v + ") AS value "@;
    let a = head + FROM_JOINED@ + " WHERE "@;
    let b = x + " ORDER BY s.metric_name, sa.timestamp"@;
    assert(text =~= a + c + b);
    lemma_statement(text, a, b, sel, start_us, end_us);
    assert(text =~= head + (FROM_JOINED@ + " WHERE "@ + c + b));
    assert(text =~= (a + c) + b);
}

proof fn lemma_bare_not_number(e: &QueryExpr)
    requires
        bare_selector(e) is Some,
    ensures
        !(*e is NumberLiteral),
{
}

// ---------- selectors, and expressions of several parts ----------

/// A selector is one statement: at an instant over what it looks back on, over a
/// range over the range.
pub proof fn law_a_selector_in_sql<L: Fn(u64) -> String>(
    w: NumberWriter<L>,
    e: &QueryExpr,
    time_us: i64,
    start_us: i64,
    end_us: i64,
)
    requires
        bare_selector(e) is Some,
        time_us - 5 * 60 * 1_000_000 >= i64::MIN,
    ensures
        ({
            let sel = bare_selector(e)->0@;
            let now = instant_statements(w, e, time_us);
            let over = range_statements(w, e, start_us, end_us);
            &&& now.len() == 1
            &&& now[0].1 == Columns::Samples
            &&& reads(now[0].0, (time_us - 300_000_000) as i64, time_us)
            &&& selects(now[0].0, sel)
            &&& over.len() == 1
            &&& over[0].1 == Columns::Samples
            &&& reads(over[0].0, start_us, end_us)
            &&& selects(over[0].0, sel)
        }),
{
    law_selectors_are_fetched(e);
    let sel = bare_selector(e)->0@;
    lemma_selector_text(sel, (time_us - 5 * 60 * 1_000_000) as i64, time_us);
    lemma_selector_text(sel, start_us, end_us);
}

/// The statements of an operand: those of an expression, and none of a number.
pub open spec fn of_operand(
    side: Operand,
    statements: spec_fn(&QueryExpr) -> Seq<(Seq<char>, Columns)>,
) -> Seq<(Seq<char>, Columns)> {
    match side {
        Operand::Scalar(_) => Seq::empty(),
        Operand::Vector(x) => statements(x),
    }
}

/// What is computed from an inner expression's points fetches what that expression
/// fetches; an operator fetches its left operand, then its right one.
pub proof fn law_parts_are_fetched_in_order<L: Fn(u64) -> String>(
    w: NumberWriter<L>,
    e: &QueryExpr,
    time_us: i64,
    start_us: i64,
    end_us: i64,
)
    ensures
        ({
            let now = |x: &QueryExpr| instant_statements(w, x, time_us);
            let over = |x: &QueryExpr| range_statements(w, x, start_us, end_us);
            match step_of(e) {
                Step::AggregatePoints { inner, .. } => now(e) == now(inner) && over(e) == over(
                    inner,
                ),
                Step::Quantile { inner, .. } => now(e) == now(inner) && over(e) == over(inner),
                Step::TopKPoints { inner, .. } => now(e) == now(inner) && over(e) == over(inner),
                Step::Operate { lhs, rhs, .. } => now(e) == of_operand(lhs, now) + of_operand(
                    rhs,
                    now,
                ) && over(e) == of_operand(lhs, over) + of_operand(rhs, over),
                Step::Nothing => now(e).len() == 0 && over(e).len() == 0,
                _ => true,
            }
        }),
{
    law_steps_go_inward(e);
}

} // verus!
