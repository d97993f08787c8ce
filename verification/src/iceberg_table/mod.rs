//! The two tables of the warehouse.
//!
//! Both live under namespace `skaldberg`:
//!
//! - **series**: metadata catalog, one row per `(metric, labels)` pair.
//!   Schema: `series_id BIGINT, metric_name STRING, labels MAP<STRING,STRING>`.
//!   Unpartitioned.
//!
//! - **samples**: time-series fact table, one row per measurement.
//!   Schema: `series_id BIGINT, timestamp TIMESTAMP, value DOUBLE`.
//!   Partitioned by `days(timestamp)`, so that a query over a time range reads
//!   only the files of its days.
//!
//! Field ids are stable across schema evolution. They are assigned here and
//! carried in Parquet metadata as `PARQUET:field_id`, so that writers map
//! columns by id, not by name.

use vstd::prelude::*;

pub mod field_ids;

verus! {

pub const NAMESPACE: &'static str = "skaldberg";

pub const SERIES_TABLE: &'static str = "series";

pub const SAMPLES_TABLE: &'static str = "samples";

/// The name of the samples table's only partition field.
pub const SAMPLES_PARTITION: &'static str = "timestamp_day";

/// The type of a column. The ids of a map's keys and values are its own.
#[derive(Debug, Clone, Copy, PartialEq, Eq, Structural)]
pub enum ColumnType {
    Long,
    Text,
    TextMap { key_id: i32, value_id: i32 },
    Timestamp,
    Double,
}

/// A column that every row has a value for.
#[derive(Debug, Clone, Copy)]
pub struct Column {
    pub id: i32,
    pub name: &'static str,
    pub ty: ColumnType,
}

/// The columns of the series table.
pub open spec fn series_columns() -> Seq<Column> {
    seq![
        Column { id: field_ids::SERIES_ID, name: "series_id", ty: ColumnType::Long },
        Column { id: field_ids::METRIC_NAME, name: "metric_name", ty: ColumnType::Text },
        Column {
            id: field_ids::LABELS,
            name: "labels",
            ty: ColumnType::TextMap {
                key_id: field_ids::LABELS_KEY,
                value_id: field_ids::LABELS_VALUE,
            },
        },
    ]
}

/// The columns of the samples table.
pub open spec fn samples_columns() -> Seq<Column> {
    seq![
        Column { id: field_ids::SAMPLES_SERIES_ID, name: "series_id", ty: ColumnType::Long },
        Column { id: field_ids::TIMESTAMP, name: "timestamp", ty: ColumnType::Timestamp },
        Column { id: field_ids::VALUE, name: "value", ty: ColumnType::Double },
    ]
}

/// The columns of the series table.
pub fn series_iceberg_schema() -> (r: Vec<Column>)
    ensures
        r@ == series_columns(),
{
    let r = vec![
        Column { id: field_ids::SERIES_ID, name: "series_id", ty: ColumnType::Long },
        Column { id: field_ids::METRIC_NAME, name: "metric_name", ty: ColumnType::Text },
        Column {
            id: field_ids::LABELS,
            name: "labels",
            ty: ColumnType::TextMap {
                key_id: field_ids::LABELS_KEY,
                value_id: field_ids::LABELS_VALUE,
            },
        },
    ];
    assert(r@ =~= series_columns());
    r
}

/// The columns of the samples table.
pub fn samples_iceberg_schema() -> (r: Vec<Column>)
    ensures
        r@ == samples_columns(),
{
    let r = vec![
        Column { id: field_ids::SAMPLES_SERIES_ID, name: "series_id", ty: ColumnType::Long },
        Column { id: field_ids::TIMESTAMP, name: "timestamp", ty: ColumnType::Timestamp },
        Column { id: field_ids::VALUE, name: "value", ty: ColumnType::Double },
    ];
    assert(r@ =~= samples_columns());
    r
}

/// The ids a column takes up: its own, and those of its keys and values.
pub open spec fn ids_of(c: Column) -> Set<int> {
    match c.ty {
        ColumnType::TextMap { key_id, value_id } => set![c.id as int, key_id as int, value_id as int],
        _ => set![c.id as int],
    }
}

/// Within a table no two columns share an id.
pub proof fn law_ids_are_not_shared(i: int, j: int)
    ensures
        0 <= i < j < series_columns().len() ==> ids_of(series_columns()[i]).disjoint(
            ids_of(series_columns()[j]),
        ),
        0 <= i < j < samples_columns().len() ==> ids_of(samples_columns()[i]).disjoint(
            ids_of(samples_columns()[j]),
        ),
{
}

} // verus!
