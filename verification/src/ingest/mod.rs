//! The ingest path: from a written sample to the rows of a flush.

pub mod acceptance_laws;
pub mod buffer;
pub mod buffer_laws;
pub mod flush;
pub mod protobuf;
pub mod protobuf_laws;
pub mod remote_write;
pub mod remote_write_laws;
pub mod service;
pub mod service_laws;
pub mod types;
pub mod validate;
pub mod validate_laws;
pub mod wal;
pub mod wal_laws;
