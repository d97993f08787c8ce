//! Result cells to JSON.
//!
//! Each row's labels come out as exactly the labels of that one series:
//!   - a map becomes an object with only the keys that exist for that row,
//!   - a list an array, a struct an object,
//!   - a timestamp an ISO-8601 string in UTC, a date `YYYY-MM-DD`,
//!   - NaN and the infinities the strings `NaN`, `Infinity` and `-Infinity`.

use vstd::prelude::*;
use vstd::string::StringExecFns;
use crate::calendar::{instant_text, representable, utc_text, DATE_FORMAT, ISO_FORMAT};
use crate::double::{is_finite, is_finite_bits, is_nan, is_nan_bits, is_negative, negative};
use crate::json::{field_views, json_views, put, put_field, Fields, Json, JsonView};
use crate::text::{push_signed, signed_decimal, texts};

verus! {

/// The unit of a timestamp.
#[derive(Debug, Clone, Copy, PartialEq, Eq, Structural)]
pub enum TimeUnit {
    Second,
    Millisecond,
    Microsecond,
    Nanosecond,
}

/// One cell of a query's result. Doubles are carried as their bit patterns.
#[derive(Debug)]
pub enum Cell {
    Null,
    Boolean(bool),
    Signed(i64),
    Unsigned(u64),
    Float(u64),
    Text(String),
    Timestamp(TimeUnit, i64),
    /// Days from 1970-01-01.
    Date(i32),
    /// Keys and values.
    Mapping(Vec<(Cell, Cell)>),
    List(Vec<Cell>),
    Struct(Vec<(String, Cell)>),
    /// A type that has no JSON form, by its name.
    Unsupported(String),
}

/// Writes a JSON value as text, supplied by the caller.
pub struct JsonWriter<W> {
    pub write: W,
}

impl<W: Fn(&Json) -> String> JsonWriter<W> {
    /// The function takes every value, and gives one text for each.
    pub open spec fn wf(self) -> bool {
        &&& forall|j: &Json| #[trigger] call_requires(self.write, (j,))
        &&& forall|j: &Json, k: &Json, a: String, b: String| #[trigger]
            call_ensures(self.write, (j,), a) && #[trigger] call_ensures(self.write, (k,), b)
                && j.view() == k.view() ==> a@ == b@
    }

    /// Whether the function gives a text for a value.
    pub open spec fn gives(self, j: JsonView, t: Seq<char>) -> bool {
        exists|v: &Json, s: String| v.view() == j && s@ == t && #[trigger] call_ensures(
            self.write,
            (v,),
            s,
        )
    }

    /// The text of a value.
    pub open spec fn text(self, j: JsonView) -> Seq<char> {
        choose|t: Seq<char>| self.gives(j, t)
    }

    /// The text of a value, as the function gives it.
    pub fn to_text(&self, j: &Json) -> (r: String)
        requires
            self.wf(),
        ensures
            r@ == self.text(j.view()),
            call_ensures(self.write, (j,), r),
    {
        let r = (self.write)(j);
        assert(self.gives(j.view(), r@));
        r
    }
}

// ---------- scalars ----------

/// A double as JSON: a number where it is finite, else a string.
pub open spec fn double_json(bits: u64) -> JsonView {
    if is_finite_bits(bits) {
        JsonView::Double(bits)
    } else if is_nan_bits(bits) {
        JsonView::Text("NaN"@)
    } else if negative(bits) {
        JsonView::Text("-Infinity"@)
    } else {
        JsonView::Text("Infinity"@)
    }
}

/// A double as JSON.
pub fn num_f64(bits: u64) -> (r: Json)
    ensures
        r.view() == double_json(bits),
{
    if is_finite(bits) {
        Json::Double(bits)
    } else if is_nan(bits) {
        Json::Text("NaN".to_string())
    } else if is_negative(bits) {
        Json::Text("-Infinity".to_string())
    } else {
        Json::Text("Infinity".to_string())
    }
}

/// How many of the unit make a second.
pub open spec fn per_second(unit: TimeUnit) -> int {
    match unit {
        TimeUnit::Second => 1,
        TimeUnit::Millisecond => 1_000,
        TimeUnit::Microsecond => 1_000_000,
        TimeUnit::Nanosecond => 1_000_000_000,
    }
}

/// A timestamp as JSON: its ISO-8601 text, or `ts_oor:` and its seconds where it
/// is out of range.
pub open spec fn timestamp_json(unit: TimeUnit, v: i64) -> JsonView {
    let secs = (v as int / per_second(unit)) as i64;
    let nanos = ((v as int % per_second(unit)) * (1_000_000_000int / per_second(unit))) as u32;
    if representable(secs as int) {
        JsonView::Text(utc_text(secs, nanos, ISO_FORMAT@))
    } else {
        JsonView::Text("ts_oor:"@ + signed_decimal(secs as int))
    }
}

fn split(v: i64, per: i64, nanos_each: u32) -> (r: (i64, u32))
    requires
        per == 1 && nanos_each == 1_000_000_000 || per == 1_000 && nanos_each == 1_000_000 || per
            == 1_000_000 && nanos_each == 1_000 || per == 1_000_000_000 && nanos_each == 1,
    ensures
        r.0 == v as int / per as int,
        r.1 == (v as int % per as int) * nanos_each,
        r.1 < 1_000_000_000,
{
    let q: i64 = v / per;
    let m: i64 = v % per;
    if m < 0 {
        proof {
            assert((m + per) * nanos_each < 1_000_000_000) by (nonlinear_arith)
                requires
                    0 < m + per < per,
                    per * nanos_each == 1_000_000_000,
                    nanos_each >= 1,
            ;
        }
        (q - 1, ((m + per) as u32) * nanos_each)
    } else {
        proof {
            assert(m * nanos_each < 1_000_000_000) by (nonlinear_arith)
                requires
                    0 <= m < per,
                    per * nanos_each == 1_000_000_000,
                    nanos_each >= 1,
            ;
        }
        (q, (m as u32) * nanos_each)
    }
}

/// A timestamp as JSON.
pub fn timestamp_to_json(unit: TimeUnit, v: i64) -> (r: Json)
    ensures
        r.view() == timestamp_json(unit, v),
{
    let (secs, nanos) = match unit {
        TimeUnit::Second => (v, 0u32),
        TimeUnit::Millisecond => split(v, 1_000, 1_000_000),
        TimeUnit::Microsecond => split(v, 1_000_000, 1_000),
        TimeUnit::Nanosecond => split(v, 1_000_000_000, 1),
    };
    proof {
        let m = v as int % per_second(unit);
        match unit {
            TimeUnit::Second => {
                assert(v as int / 1 == v && v as int % 1 == 0);
                assert(m * (1_000_000_000int / per_second(unit)) == 0) by (nonlinear_arith)
                    requires
                        m == 0,
                ;
            },
            TimeUnit::Millisecond => {
                assert(m * (1_000_000_000int / per_second(unit)) == m * 1_000_000);
            },
            TimeUnit::Microsecond => {
                assert(m * (1_000_000_000int / per_second(unit)) == m * 1_000);
            },
            TimeUnit::Nanosecond => {
                assert(m * (1_000_000_000int / per_second(unit)) == m * 1);
            },
        }
    }
    match instant_text(secs, nanos, ISO_FORMAT) {
        Some(text) => Json::Text(text),
        None => {
            let mut text = "ts_oor:".to_string();
            push_signed(&mut text, secs);
            Json::Text(text)
        },
    }
}

/// A date as JSON: `YYYY-MM-DD`, or `date32_oor:` and its days where it is out of
/// range.
pub open spec fn date_json(days: i32) -> JsonView {
    if representable(days * 86_400) {
        JsonView::Text(utc_text((days * 86_400) as i64, 0, DATE_FORMAT@))
    } else {
        JsonView::Text("date32_oor:"@ + signed_decimal(days as int))
    }
}

/// A date as JSON.
pub fn date_to_json(days: i32) -> (r: Json)
    ensures
        r.view() == date_json(days),
{
    let secs: i64 = days as i64 * 86_400;
    match instant_text(secs, 0, DATE_FORMAT) {
        Some(text) => Json::Text(text),
        None => {
            let mut text = "date32_oor:".to_string();
            push_signed(&mut text, days as i64);
            Json::Text(text)
        },
    }
}

// ---------- cells ----------

/// The name a map key becomes: a string is taken as it is, anything else by its
/// JSON text.
pub open spec fn key_name<W: Fn(&Json) -> String>(w: JsonWriter<W>, key: JsonView) -> Seq<char> {
    match key {
        JsonView::Text(s) => s,
        _ => w.text(key),
    }
}

/// A cell as JSON.
pub open spec fn cell_json<W: Fn(&Json) -> String>(w: JsonWriter<W>, cell: Cell) -> JsonView
    decreases cell,
{
    match cell {
        Cell::Null => JsonView::Null,
        Cell::Boolean(b) => JsonView::Bool(b),
        Cell::Signed(n) => JsonView::Int(n),
        Cell::Unsigned(n) => JsonView::UInt(n),
        Cell::Float(bits) => double_json(bits),
        Cell::Text(s) => JsonView::Text(s@),
        Cell::Timestamp(unit, v) => timestamp_json(unit, v),
        Cell::Date(days) => date_json(days),
        Cell::Mapping(entries) => JsonView::Object(map_fields(w, entries@)),
        Cell::List(items) => JsonView::Array(list_json(w, items@)),
        Cell::Struct(fields) => JsonView::Object(struct_fields(w, fields@)),
        Cell::Unsupported(name) => JsonView::Text("unsupported:"@ + name@),
    }
}

/// The fields of a map: entries without a key do not count, and where a key
/// occurs twice the later value does.
pub open spec fn map_fields<W: Fn(&Json) -> String>(
    w: JsonWriter<W>,
    entries: Seq<(Cell, Cell)>,
) -> Fields
    decreases entries,
{
    if entries.len() == 0 {
        Seq::empty()
    } else {
        let rest = map_fields(w, entries.drop_last());
        if entries.last().0 is Null {
            rest
        } else {
            put(
                rest,
                key_name(w, cell_json(w, entries.last().0)),
                cell_json(w, entries.last().1),
            )
        }
    }
}

/// The items of a list.
pub open spec fn list_json<W: Fn(&Json) -> String>(w: JsonWriter<W>, items: Seq<Cell>) -> Seq<
    JsonView,
>
    decreases items,
{
    if items.len() == 0 {
        Seq::empty()
    } else {
        list_json(w, items.drop_last()).push(cell_json(w, items.last()))
    }
}

/// The fields of a struct.
pub open spec fn struct_fields<W: Fn(&Json) -> String>(
    w: JsonWriter<W>,
    fields: Seq<(String, Cell)>,
) -> Fields
    decreases fields,
{
    if fields.len() == 0 {
        Seq::empty()
    } else {
        put(
            struct_fields(w, fields.drop_last()),
            fields.last().0@,
            cell_json(w, fields.last().1),
        )
    }
}

/// A cell as JSON.
pub fn array_cell_to_json<W: Fn(&Json) -> String>(w: &JsonWriter<W>, cell: &Cell) -> (r: Json)
    requires
        w.wf(),
    ensures
        r.view() == cell_json(*w, *cell),
    decreases cell,
{
    match cell {
        Cell::Null => Json::Null,
        Cell::Boolean(b) => Json::Bool(*b),
        Cell::Signed(n) => Json::Int(*n),
        Cell::Unsigned(n) => Json::UInt(*n),
        Cell::Float(bits) => num_f64(*bits),
        Cell::Text(s) => Json::Text(s.clone()),
        Cell::Timestamp(unit, v) => timestamp_to_json(*unit, *v),
        Cell::Date(days) => date_to_json(*days),
        Cell::Mapping(entries) => {
            let ghost all = entries@;
            let mut fields: Vec<(String, Json)> = Vec::new();
            let mut i: usize = 0;
            assert(field_views(fields@) =~= map_fields(*w, all.take(0)));
            while i < entries.len()
                invariant
                    w.wf(),
                    *cell matches Cell::Mapping(e) && e == *entries,
                    all == entries@,
                    i <= entries@.len(),
                    field_views(fields@) == map_fields(*w, all.take(i as int)),
                decreases entries@.len() - i,
            {
                proof {
                    let t = all.take(i as int + 1);
                    assert(t.drop_last() =~= all.take(i as int));
                    assert(t.last() == entries@[i as int]);
                    assert(decreases_to!(*cell => cell->Mapping_0));
                    assert(decreases_to!(cell->Mapping_0 => cell->Mapping_0@));
                    assert(decreases_to!(cell->Mapping_0@ => cell->Mapping_0@[i as int]));
                    assert(decreases_to!(cell->Mapping_0@[i as int] => cell->Mapping_0@[i as int].0));
                    assert(decreases_to!(cell->Mapping_0@[i as int] => cell->Mapping_0@[i as int].1));
                }
                let (key, value) = &entries[i];
                if !matches!(key, Cell::Null) {
                    let name = match array_cell_to_json(w, key) {
                        Json::Text(s) => s,
                        other => w.to_text(&other),
                    };
                    let v = array_cell_to_json(w, value);
                    put_field(&mut fields, name, v);
                }
                i += 1;
            }
            assert(all.take(i as int) =~= all);
            Json::Object(fields)
        },
        Cell::List(items) => {
            let ghost all = items@;
            let mut out: Vec<Json> = Vec::new();
            let mut i: usize = 0;
            assert(json_views(out@) =~= list_json(*w, all.take(0)));
            while i < items.len()
                invariant
                    w.wf(),
                    *cell matches Cell::List(e) && e == *items,
                    all == items@,
                    i <= items@.len(),
                    json_views(out@) == list_json(*w, all.take(i as int)),
                decreases items@.len() - i,
            {
                let ghost before = out@;
                proof {
                    let t = all.take(i as int + 1);
                    assert(t.drop_last() =~= all.take(i as int));
                    assert(t.last() == items@[i as int]);
                    assert(decreases_to!(*cell => cell->List_0));
                    assert(decreases_to!(cell->List_0 => cell->List_0@));
                    assert(decreases_to!(cell->List_0@ => cell->List_0@[i as int]));
                }
                let v = array_cell_to_json(w, &items[i]);
                out.push(v);
                assert(out@.drop_last() =~= before);
                i += 1;
            }
            assert(all.take(i as int) =~= all);
            Json::Array(out)
        },
        Cell::Struct(members) => {
            let ghost all = members@;
            let mut fields: Vec<(String, Json)> = Vec::new();
            let mut i: usize = 0;
            assert(field_views(fields@) =~= struct_fields(*w, all.take(0)));
            while i < members.len()
                invariant
                    w.wf(),
                    *cell matches Cell::Struct(e) && e == *members,
                    all == members@,
                    i <= members@.len(),
                    field_views(fields@) == struct_fields(*w, all.take(i as int)),
                decreases members@.len() - i,
            {
                proof {
                    let t = all.take(i as int + 1);
                    assert(t.drop_last() =~= all.take(i as int));
                    assert(t.last() == members@[i as int]);
                    assert(decreases_to!(*cell => cell->Struct_0));
                    assert(decreases_to!(cell->Struct_0 => cell->Struct_0@));
                    assert(decreases_to!(cell->Struct_0@ => cell->Struct_0@[i as int]));
                    assert(decreases_to!(cell->Struct_0@[i as int] => cell->Struct_0@[i as int].1));
                }
                let v = array_cell_to_json(w, &members[i].1);
                put_field(&mut fields, members[i].0.clone(), v);
                i += 1;
            }
            assert(all.take(i as int) =~= all);
            Json::Object(fields)
        },
        Cell::Unsupported(name) => {
            let mut text = "unsupported:".to_string();
            text.append(name.as_str());
            Json::Text(text)
        },
    }
}

// ---------- rows ----------

/// Rows that have the same columns.
pub struct Batch {
    pub columns: Vec<String>,
    pub rows: Vec<Vec<Cell>>,
}

/// Whether every row has a cell for each column.
pub open spec fn well_shaped(b: Batch) -> bool {
    forall|i: int| 0 <= i < b.rows@.len() ==> (#[trigger] b.rows@[i])@.len() == b.columns@.len()
}

/// A row as JSON fields: one for each column, and where a column's name occurs
/// twice the later one counts.
pub open spec fn row_fields<W: Fn(&Json) -> String>(
    w: JsonWriter<W>,
    columns: Seq<Seq<char>>,
    row: Seq<Cell>,
) -> Fields
    decreases columns.len(),
{
    if columns.len() == 0 {
        Seq::empty()
    } else {
        put(
            row_fields(w, columns.drop_last(), row),
            columns.last(),
            cell_json(w, row[columns.len() - 1]),
        )
    }
}

/// The rows of a batch as JSON fields.
pub open spec fn batch_rows<W: Fn(&Json) -> String>(w: JsonWriter<W>, b: Batch) -> Seq<Fields> {
    Seq::new(b.rows@.len(), |i: int| row_fields(w, texts(b.columns@), b.rows@[i]@))
}

/// The rows of a list of batches as JSON fields.
pub open spec fn all_rows<W: Fn(&Json) -> String>(w: JsonWriter<W>, batches: Seq<Batch>) -> Seq<
    Fields,
>
    decreases batches.len(),
{
    if batches.len() == 0 {
        Seq::empty()
    } else {
        all_rows(w, batches.drop_last()) + batch_rows(w, batches.last())
    }
}

/// The views of a list of rows.
pub open spec fn row_views(rows: Seq<Vec<(String, Json)>>) -> Seq<Fields> {
    rows.map_values(|r: Vec<(String, Json)>| field_views(r@))
}

fn row_to_json<W: Fn(&Json) -> String>(
    w: &JsonWriter<W>,
    columns: &Vec<String>,
    row: &Vec<Cell>,
) -> (r: Vec<(String, Json)>)
    requires
        w.wf(),
        row@.len() == columns@.len(),
    ensures
        field_views(r@) == row_fields(*w, texts(columns@), row@),
{
    let ghost all = texts(columns@);
    let mut fields: Vec<(String, Json)> = Vec::new();
    let mut i: usize = 0;
    assert(field_views(fields@) =~= row_fields(*w, all.take(0), row@));
    while i < columns.len()
        invariant
            w.wf(),
            all == texts(columns@),
            row@.len() == columns@.len(),
            i <= columns@.len(),
            field_views(fields@) == row_fields(*w, all.take(i as int), row@),
        decreases columns@.len() - i,
    {
        proof {
            let t = all.take(i as int + 1);
            assert(t.drop_last() =~= all.take(i as int));
            assert(t.last() == columns@[i as int]@);
        }
        let v = array_cell_to_json(w, &row[i]);
        put_field(&mut fields, columns[i].clone(), v);
        i += 1;
    }
    assert(all.take(i as int) =~= all);
    fields
}

/// The rows of a list of batches as JSON.
pub fn record_batches_to_json_rows<W: Fn(&Json) -> String>(
    w: &JsonWriter<W>,
    batches: &Vec<Batch>,
) -> (r: Vec<Vec<(String, Json)>>)
    requires
        w.wf(),
        forall|i: int| 0 <= i < batches@.len() ==> well_shaped(#[trigger] batches@[i]),
    ensures
        row_views(r@) == all_rows(*w, batches@),
{
    let mut out: Vec<Vec<(String, Json)>> = Vec::new();
    let mut i: usize = 0;
    assert(row_views(out@) =~= all_rows(*w, batches@.take(0)));
    while i < batches.len()
        invariant
            w.wf(),
            forall|k: int| 0 <= k < batches@.len() ==> well_shaped(#[trigger] batches@[k]),
            i <= batches@.len(),
            row_views(out@) == all_rows(*w, batches@.take(i as int)),
        decreases batches@.len() - i,
    {
        let b = &batches[i];
        let ghost before = row_views(out@);
        let ghost rows = batch_rows(*w, *b);
        let mut j: usize = 0;
        assert(row_views(out@) =~= before + rows.take(0));
        while j < b.rows.len()
            invariant
                w.wf(),
                well_shaped(*b),
                rows == batch_rows(*w, *b),
                j <= b.rows@.len(),
                row_views(out@) == before + rows.take(j as int),
            decreases b.rows@.len() - j,
        {
            let ghost o = out@;
            let row = row_to_json(w, &b.columns, &b.rows[j]);
            out.push(row);
            proof {
                assert(rows[j as int] == field_views(row@));
                assert(row_views(out@) =~= row_views(o).push(field_views(row@)));
                assert(row_views(out@) =~= before + rows.take(j as int + 1));
            }
            j += 1;
        }
        proof {
            assert(rows.take(j as int) =~= rows);
            assert(batches@.take(i as int + 1).drop_last() =~= batches@.take(i as int));
        }
        i += 1;
    }
    assert(batches@.take(i as int) =~= batches@);
    out
}

} // verus!
