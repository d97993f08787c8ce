//! Prometheus HTTP API subset.
//!
//! The parts of `/api/v1/*` that Grafana's Prometheus datasource calls during
//! normal operation: instant and range queries, label names, label values and
//! series. A query is parsed into an expression, a plan is picked for it, the
//! plan's SQL is built, and the rows that come back are shaped into points.

pub mod ast;
pub mod durations;
pub mod error;
pub mod plan;
pub mod plan_laws;
pub mod sql;
pub mod queries;
pub mod rows;
pub mod numbers;
pub mod series;
pub mod aggregate;
pub mod topk;
pub mod ranking_laws;
pub mod operate;
pub mod operate_laws;
pub mod fetch;
pub mod fetch_laws;
pub mod histogram;
pub mod decode;
pub mod evaluate;
pub mod quantile_laws;
pub mod window_laws;
pub mod reduction_laws;
pub mod histogram_laws;
pub mod aggregate_laws;
pub mod evaluation_laws;
pub mod times;
pub mod time_laws;
pub mod request_laws;
pub mod response;
pub mod response_laws;
pub mod catalog;
pub mod catalog_laws;
