[package]
name = "skaldberg"
version = "0.1.0"
edition = "2021"
publish = false

[dependencies]
anyhow = "=1.0.104"
arrow = { version = "57", default-features = false }
async-trait = "0.1"
axum = { version = "0.8", default-features = false, features = ["http1", "json", "query", "form", "tokio"] }
bytes = "1"
chrono = { version = "=0.4.45", default-features = false, features = ["std"] }
crc32fast = "=1.5.4"
datafusion = { version = "52", default-features = false, features = ["parquet", "sql"] }
iceberg = { version = "0.9", default-features = false }
parquet = { version = "57", default-features = false }
promql-parser = "=0.8.0"
prost = "=0.14.4"
serde = { version = "1", features = ["derive"] }
serde_json = "1"
snap = "=1.1.2"
thiserror = "2"
tokio = { version = "1", features = ["macros", "rt-multi-thread", "signal", "sync", "time", "net", "fs"] }
tower-http = { version = "=0.6.11", features = ["trace"] }
tracing = "0.1"
tracing-subscriber = { version = "0.3" }
typetag = "0.2"
url = "=2.5.8"
uuid = { version = "1", features = ["v4"] }
xxhash-rust = { version = "=0.8.19", features = ["xxh3"] }
