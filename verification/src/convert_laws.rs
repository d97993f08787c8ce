//! What cells and rows become, in terms of what they hold.

use vstd::prelude::*;
use crate::calendar::{representable, utc_text};
use crate::convert::{
    all_rows, batch_rows, cell_json, date_json, double_json, key_name, list_json, map_fields,
    per_second, row_fields, struct_fields, timestamp_json, Batch, Cell, JsonWriter, TimeUnit,
};
use crate::double_laws::{exponent, fraction, law_kinds_of_bits};
use crate::json::{distinct_fields, law_put_keeps_names_distinct, Fields, Json, JsonView};
use crate::prometheus::response_laws::{has_field, law_put_sets_one_field};
use crate::text::{signed_decimal, texts};

verus! {

// ---------- scalars ----------

/// A double is shown as the number it is, or by name where it is none.
pub proof fn law_doubles_are_shown(bits: u64)
    ensures
        exponent(bits) != 2047 ==> double_json(bits) == JsonView::Double(bits),
        bits == 0x7ff0_0000_0000_0000 ==> double_json(bits) == JsonView::Text("Infinity"@),
        bits == 0xfff0_0000_0000_0000 ==> double_json(bits) == JsonView::Text("-Infinity"@),
        exponent(bits) == 2047 && fraction(bits) != 0 ==> double_json(bits) == JsonView::Text(
            "NaN"@,
        ),
{
    law_kinds_of_bits(bits);
}

/// How many nanoseconds one of the unit takes.
pub open spec fn nanos_in(unit: TimeUnit) -> int {
    match unit {
        TimeUnit::Second => 1_000_000_000,
        TimeUnit::Millisecond => 1_000_000,
        TimeUnit::Microsecond => 1_000,
        TimeUnit::Nanosecond => 1,
    }
}

/// A timestamp is shown as the instant it is, to the nanosecond, whatever its
/// unit; where no calendar has that instant, its whole seconds are shown.
pub proof fn law_timestamps_are_shown(unit: TimeUnit, v: i64, secs: i64, nanos: u32)
    requires
        nanos < 1_000_000_000,
        secs * 1_000_000_000 + nanos == v * nanos_in(unit),
    ensures
        representable(secs as int) ==> timestamp_json(unit, v) == JsonView::Text(
            utc_text(secs, nanos, "%Y-%m-%dT%H:%M:%S%.6fZ"@),
        ),
        !representable(secs as int) ==> timestamp_json(unit, v) == JsonView::Text(
            "ts_oor:"@ + signed_decimal(secs as int),
        ),
{
    let per = per_second(unit);
    let q = v as int / per;
    let n = (v as int % per) * (1_000_000_000int / per);
    let m = v as int % per;
    let k = 1_000_000_000int / per;
    let each = nanos_in(unit);
    assert(k == each);
    assert(q == secs && m * each == nanos) by {
        match unit {
            TimeUnit::Second => {
                assert(q == secs && nanos == 0 && m == 0);
                assert(m * each == m * 1_000_000_000) by (nonlinear_arith)
                    requires
                        each == 1_000_000_000,
                ;
            },
            TimeUnit::Millisecond => {
                assert(q == secs && m * 1_000_000 == nanos);
                assert(m * each == m * 1_000_000) by (nonlinear_arith)
                    requires
                        each == 1_000_000,
                ;
            },
            TimeUnit::Microsecond => {
                assert(q == secs && m * 1_000 == nanos);
                assert(m * each == m * 1_000) by (nonlinear_arith)
                    requires
                        each == 1_000,
                ;
            },
            TimeUnit::Nanosecond => {
                assert(q == secs && m == nanos);
                assert(m * each == m * 1) by (nonlinear_arith)
                    requires
                        each == 1,
                ;
            },
        }
    }
    assert(n == m * k);
    assert(q as i64 == secs && n as u32 == nanos);
}

/// A date is shown as the day that begins so many days after the epoch.
pub proof fn law_dates_are_shown(days: i32, secs: i64)
    requires
        secs == days * 24 * 60 * 60,
    ensures
        representable(secs as int) ==> date_json(days) == JsonView::Text(
            utc_text(secs, 0, "%Y-%m-%d"@),
        ),
        !representable(secs as int) ==> date_json(days) == JsonView::Text(
            "date32_oor:"@ + signed_decimal(days as int),
        ),
{
}

// ---------- lists, maps and structs ----------

/// A list shows each of its items, in order.
pub proof fn law_lists_show_their_items<W: Fn(&Json) -> String>(
    w: JsonWriter<W>,
    items: Seq<Cell>,
)
    ensures
        list_json(w, items).len() == items.len(),
        forall|i: int|
            0 <= i < items.len() ==> #[trigger] list_json(w, items)[i] == cell_json(w, items[i]),
    decreases items.len(),
{
    if items.len() > 0 {
        law_lists_show_their_items(w, items.drop_last());
    }
}

/// The last entry of a map that has a key: the entries after it have none, or
/// one with another name.
pub open spec fn is_last_entry<W: Fn(&Json) -> String>(
    w: JsonWriter<W>,
    entries: Seq<(Cell, Cell)>,
    i: int,
    name: Seq<char>,
) -> bool {
    &&& 0 <= i < entries.len()
    &&& !(entries[i].0 is Null)
    &&& key_name(w, cell_json(w, entries[i].0)) == name
    &&& forall|j: int|
        i < j < entries.len() ==> (#[trigger] entries[j]).0 is Null || key_name(
            w,
            cell_json(w, entries[j].0),
        ) != name
}

/// A map shows the value of the last entry with each key, and nothing else: an
/// entry without a key is passed over.
pub proof fn law_maps_show_their_entries<W: Fn(&Json) -> String>(
    w: JsonWriter<W>,
    entries: Seq<(Cell, Cell)>,
)
    ensures
        distinct_fields(map_fields(w, entries)),
        forall|i: int, name: Seq<char>| #[trigger]
            is_last_entry(w, entries, i, name) ==> has_field(
                map_fields(w, entries),
                name,
                cell_json(w, entries[i].1),
            ),
        forall|name: Seq<char>, v: JsonView| #[trigger]
            has_field(map_fields(w, entries), name, v) ==> exists|i: int| #[trigger]
                is_last_entry(w, entries, i, name) && v == cell_json(w, entries[i].1),
    decreases entries.len(),
{
    let all = map_fields(w, entries);
    if entries.len() > 0 {
        let front = entries.drop_last();
        let last = entries.last();
        let rest = map_fields(w, front);
        let key = key_name(w, cell_json(w, last.0));
        let value = cell_json(w, last.1);
        law_maps_show_their_entries(w, front);
        law_put_sets_one_field(rest, key, value);
        law_put_keeps_names_distinct(rest, key, value);
        let n = entries.len() - 1;
        assert(entries[n] == last);
        assert forall|i: int, name: Seq<char>| #[trigger]
            is_last_entry(w, entries, i, name) implies has_field(
            all,
            name,
            cell_json(w, entries[i].1),
        ) by {
            if i < n {
                assert(front[i] == entries[i]);
                assert forall|j: int| i < j < front.len() implies (#[trigger] front[j]).0 is Null
                    || key_name(w, cell_json(w, front[j].0)) != name by {
                    assert(front[j] == entries[j]);
                }
                assert(is_last_entry(w, front, i, name));
                assert(entries[n].0 is Null || key != name);
            }
        }
        assert forall|name: Seq<char>, v: JsonView| #[trigger] has_field(all, name, v) implies exists|
            i: int,
        | #[trigger]
            is_last_entry(w, entries, i, name) && v == cell_json(w, entries[i].1) by {
            if !(last.0 is Null) && key == name {
                assert(is_last_entry(w, entries, n, name));
            } else {
                assert(has_field(rest, name, v));
                let i = choose|i: int| #[trigger]
                    is_last_entry(w, front, i, name) && v == cell_json(w, front[i].1);
                assert(front[i] == entries[i]);
                assert forall|j: int| i < j < entries.len() implies (
                #[trigger] entries[j]).0 is Null || key_name(w, cell_json(w, entries[j].0))
                    != name by {
                    if j < n {
                        assert(front[j] == entries[j]);
                    }
                }
                assert(is_last_entry(w, entries, i, name));
            }
        }
    }
}

/// The last of some names that is this one.
pub open spec fn is_last_name(names: Seq<Seq<char>>, i: int, name: Seq<char>) -> bool {
    &&& 0 <= i < names.len()
    &&& names[i] == name
    &&& forall|j: int| i < j < names.len() ==> #[trigger] names[j] != name
}

proof fn lemma_last_name(names: Seq<Seq<char>>, i: int, name: Seq<char>)
    requires
        names.len() > 0,
    ensures
        is_last_name(names, i, name) <==> if names.last() == name {
            i == names.len() - 1
        } else {
            is_last_name(names.drop_last(), i, name)
        },
{
    let front = names.drop_last();
    if is_last_name(names, i, name) && names.last() != name {
        assert forall|j: int| i < j < front.len() implies #[trigger] front[j] != name by {
            assert(front[j] == names[j]);
        }
    }
    if names.last() == name && is_last_name(names, i, name) {
        if i < names.len() - 1 {
            assert(names[names.len() - 1] != name);
        }
    }
    if is_last_name(front, i, name) && names.last() != name {
        assert forall|j: int| i < j < names.len() implies #[trigger] names[j] != name by {
            if j < front.len() {
                assert(front[j] == names[j]);
            }
        }
    }
}

/// A struct shows each of its fields by its name, the last one where a name
/// occurs twice, and nothing else.
pub proof fn law_structs_show_their_fields<W: Fn(&Json) -> String>(
    w: JsonWriter<W>,
    fields: Seq<(String, Cell)>,
)
    ensures
        distinct_fields(struct_fields(w, fields)),
        forall|name: Seq<char>, v: JsonView| #[trigger]
            has_field(struct_fields(w, fields), name, v) <==> exists|i: int| #[trigger]
                is_last_name(field_names(fields), i, name) && v == cell_json(w, fields[i].1),
    decreases fields.len(),
{
    let all = struct_fields(w, fields);
    if fields.len() > 0 {
        let front = fields.drop_last();
        let last = fields.last();
        let rest = struct_fields(w, front);
        let names = field_names(fields);
        let n = fields.len() - 1;
        law_structs_show_their_fields(w, front);
        law_put_sets_one_field(rest, last.0@, cell_json(w, last.1));
        law_put_keeps_names_distinct(rest, last.0@, cell_json(w, last.1));
        assert(names.drop_last() =~= field_names(front));
        assert forall|name: Seq<char>, v: JsonView| #[trigger] has_field(all, name, v)
            <==> exists|i: int| #[trigger]
            is_last_name(names, i, name) && v == cell_json(w, fields[i].1) by {
            if last.0@ == name {
                lemma_last_name(names, n, name);
                if has_field(all, name, v) {
                    assert(is_last_name(names, n, name));
                }
                if exists|i: int| #[trigger]
                    is_last_name(names, i, name) && v == cell_json(w, fields[i].1) {
                    let i = choose|i: int| #[trigger]
                        is_last_name(names, i, name) && v == cell_json(w, fields[i].1);
                    lemma_last_name(names, i, name);
                }
            } else {
                assert(has_field(all, name, v) == has_field(rest, name, v));
                if has_field(rest, name, v) {
                    let i = choose|i: int| #[trigger]
                        is_last_name(field_names(front), i, name) && v == cell_json(w, front[i].1);
                    lemma_last_name(names, i, name);
                    assert(is_last_name(names, i, name));
                    assert(front[i] == fields[i]);
                }
                if exists|i: int| #[trigger]
                    is_last_name(names, i, name) && v == cell_json(w, fields[i].1) {
                    let i = choose|i: int| #[trigger]
                        is_last_name(names, i, name) && v == cell_json(w, fields[i].1);
                    lemma_last_name(names, i, name);
                    assert(is_last_name(field_names(front), i, name));
                    assert(front[i] == fields[i]);
                }
            }
        }
    }
}

/// The names of fields.
pub open spec fn field_names(fields: Seq<(String, Cell)>) -> Seq<Seq<char>> {
    Seq::new(fields.len(), |i: int| fields[i].0@)
}

// ---------- rows ----------

/// A row shows under each column's name the cell of that column, of the last
/// column where a name occurs twice, and nothing else.
pub proof fn law_rows_show_their_cells<W: Fn(&Json) -> String>(
    w: JsonWriter<W>,
    columns: Seq<Seq<char>>,
    row: Seq<Cell>,
)
    requires
        columns.len() <= row.len(),
    ensures
        distinct_fields(row_fields(w, columns, row)),
        forall|name: Seq<char>, v: JsonView| #[trigger]
            has_field(row_fields(w, columns, row), name, v) <==> exists|i: int| #[trigger]
                is_last_name(columns, i, name) && v == cell_json(w, row[i]),
    decreases columns.len(),
{
    let all = row_fields(w, columns, row);
    if columns.len() > 0 {
        let front = columns.drop_last();
        let rest = row_fields(w, front, row);
        let n = columns.len() - 1;
        law_rows_show_their_cells(w, front, row);
        law_put_sets_one_field(rest, columns.last(), cell_json(w, row[n]));
        law_put_keeps_names_distinct(rest, columns.last(), cell_json(w, row[n]));
        assert forall|name: Seq<char>, v: JsonView| #[trigger] has_field(all, name, v)
            <==> exists|i: int| #[trigger]
            is_last_name(columns, i, name) && v == cell_json(w, row[i]) by {
            if columns.last() == name {
                lemma_last_name(columns, n, name);
                if has_field(all, name, v) {
                    assert(is_last_name(columns, n, name));
                }
                if exists|i: int| #[trigger]
                    is_last_name(columns, i, name) && v == cell_json(w, row[i]) {
                    let i = choose|i: int| #[trigger]
                        is_last_name(columns, i, name) && v == cell_json(w, row[i]);
                    lemma_last_name(columns, i, name);
                }
            } else {
                assert(has_field(all, name, v) == has_field(rest, name, v));
                if has_field(rest, name, v) {
                    let i = choose|i: int| #[trigger]
                        is_last_name(front, i, name) && v == cell_json(w, row[i]);
                    lemma_last_name(columns, i, name);
                    assert(is_last_name(columns, i, name));
                }
                if exists|i: int| #[trigger]
                    is_last_name(columns, i, name) && v == cell_json(w, row[i]) {
                    let i = choose|i: int| #[trigger]
                        is_last_name(columns, i, name) && v == cell_json(w, row[i]);
                    lemma_last_name(columns, i, name);
                    assert(is_last_name(front, i, name));
                }
            }
        }
    }
}

/// The rows of all batches come out, batch by batch and in order.
pub proof fn law_batches_are_shown_one_by_one<W: Fn(&Json) -> String>(
    w: JsonWriter<W>,
    a: Seq<Batch>,
    b: Seq<Batch>,
)
    ensures
        all_rows(w, a + b) == all_rows(w, a) + all_rows(w, b),
    decreases b.len(),
{
    if b.len() == 0 {
        assert(a + b =~= a);
        assert(all_rows(w, a) + all_rows(w, b) =~= all_rows(w, a));
    } else {
        law_batches_are_shown_one_by_one(w, a, b.drop_last());
        assert((a + b).drop_last() =~= a + b.drop_last());
        assert((a + b).last() == b.last());
        assert(all_rows(w, a + b) =~= all_rows(w, a) + all_rows(w, b));
    }
}

/// A batch shows each of its rows, in order, under the names of its columns.
pub proof fn law_a_batch_shows_its_rows<W: Fn(&Json) -> String>(w: JsonWriter<W>, b: Batch)
    ensures
        all_rows(w, seq![b]).len() == b.rows@.len(),
        forall|i: int|
            0 <= i < b.rows@.len() ==> #[trigger] all_rows(w, seq![b])[i] == row_fields(
                w,
                texts(b.columns@),
                b.rows@[i]@,
            ),
{
    let one = seq![b];
    assert(one.last() == b);
    assert(one.drop_last() =~= Seq::empty());
    reveal_with_fuel(all_rows, 2);
    let none: Seq<Fields> = Seq::empty();
    assert(all_rows(w, one) =~= none + batch_rows(w, b));
}

} // verus!
