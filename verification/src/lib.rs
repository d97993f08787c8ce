//! Skaldberg: the verified core of a metrics store.

pub mod args;
pub mod auth;
pub mod aws_s3_storage;
pub mod bytes;
pub mod calendar;
pub mod convert;
pub mod convert_laws;
pub mod double;
pub mod double_laws;
pub mod grafana;
pub mod grafana_laws;
pub mod handlers;
pub mod iceberg_table;
pub mod ingest;
pub mod json;
pub mod labels;
pub mod ordered;
pub mod permutations;
pub mod prometheus;
pub mod reals;
pub mod state;
pub mod text;
