use skaldberg::args::{AddressCheck, Args, ArgsError, CatalogConfig};
use skaldberg::auth::admits;
use skaldberg::aws_s3_storage::{
    next_page, object_size, parse_s3_path, range_header, WriteBuffer,
};
use skaldberg::handlers::{
    default_max_rows, first_rejection, ingest_failure, remote_write_failure, sql_failure,
    to_append, trim_rows, validate_batch, ApiError, IngestFailure, RemoteWriteFailure, SqlFailure,
};
use skaldberg::iceberg_table::{
    samples_iceberg_schema, series_iceberg_schema, ColumnType, NAMESPACE, SAMPLES_TABLE,
    SERIES_TABLE,
};
use skaldberg::ingest::types::RawSample;
use skaldberg::labels::Labels;
use skaldberg::state::known_series;

fn parse(args: &[&str]) -> (Result<Args, ArgsError>, Vec<String>) {
    let check = AddressCheck {
        is_address: |s: &str| s == "127.0.0.1:8080" || s == "0.0.0.0:9000",
    };
    let args: Vec<String> = args.iter().map(|s| s.to_string()).collect();
    Args::parse(&check, &args)
}

#[test]
fn no_flags_give_the_defaults() {
    let (args, unknown) = parse(&[]);
    let args = args.unwrap();
    assert!(unknown.is_empty());
    assert_eq!(args.wal_dir, "data/wal");
    assert_eq!(args.bind, "127.0.0.1:8080");
    assert_eq!(args.flush_interval_secs, 300);
    assert_eq!(args.shutdown_timeout_secs, 30);
    match args.catalog {
        CatalogConfig::Memory { warehouse_uri } => {
            assert_eq!(warehouse_uri, "memory:///warehouse")
        }
        other => panic!("{:?}", other),
    }
    assert_eq!(args.aws_region, None);
    assert_eq!(args.api_token, None);
}

#[test]
fn flags_are_read() {
    let (args, unknown) = parse(&[
        "--wal-dir", "/tmp/w", "--bind", "0.0.0.0:9000", "--flush-interval-secs", "60",
        "--shutdown-timeout-secs", "5", "--catalog", "s3tables", "--table-bucket-arn", "arn:x",
        "--s3tables-endpoint", "http://e", "--aws-region", "eu-west-1", "--api-token", "t",
        "--colour", "red",
    ]);
    let args = args.unwrap();
    assert_eq!(unknown, vec!["--colour"]);
    assert_eq!(args.wal_dir, "/tmp/w");
    assert_eq!(args.bind, "0.0.0.0:9000");
    assert_eq!(args.flush_interval_secs, 60);
    assert_eq!(args.shutdown_timeout_secs, 5);
    match args.catalog {
        CatalogConfig::S3Tables { table_bucket_arn, endpoint_url } => {
            assert_eq!(table_bucket_arn, "arn:x");
            assert_eq!(endpoint_url, Some("http://e".to_string()));
        }
        other => panic!("{:?}", other),
    }
    assert_eq!(args.aws_region, Some("eu-west-1".to_string()));
    assert_eq!(args.api_token, Some("t".to_string()));
}

#[test]
fn a_flag_without_a_value_has_an_empty_one() {
    let (args, _) = parse(&["--wal-dir"]);
    assert_eq!(args.unwrap().wal_dir, "");
}

#[test]
fn refused_command_lines() {
    let text = |args: &[&str]| parse(args).0.unwrap_err().message();
    assert_eq!(text(&["--bind", "nowhere"]), "--bind addr:port");
    assert_eq!(
        text(&["--flush-interval-secs", "soon"]),
        "--flush-interval-secs <seconds>"
    );
    assert_eq!(
        text(&["--shutdown-timeout-secs", "-1"]),
        "--shutdown-timeout-secs <seconds>"
    );
    assert_eq!(
        text(&["--catalog", "s3tables"]),
        "--catalog s3tables requires --table-bucket-arn"
    );
    assert_eq!(
        text(&["--catalog", "glue"]),
        "--catalog must be 'memory' or 's3tables' (got glue)"
    );
}

#[test]
fn bearer_token_is_checked() {
    assert!(admits(None, None));
    assert!(admits(None, Some("anything")));
    assert!(admits(Some("secret"), Some("Bearer secret")));
    assert!(!admits(Some("secret"), None));
    assert!(!admits(Some("secret"), Some("secret")));
    assert!(!admits(Some("secret"), Some("Bearer other")));
    assert!(!admits(Some("secret"), Some("bearer secret")));
    assert!(!admits(Some("secret"), Some("Bearer secret ")));
}

#[test]
fn object_addresses_are_taken_apart() {
    let p = parse_s3_path("s3://bucket/a/b.parquet").unwrap();
    assert_eq!((p.bucket.as_str(), p.key.as_str()), ("bucket", "a/b.parquet"));
    let p = parse_s3_path("s3://bucket/").unwrap();
    assert_eq!((p.bucket.as_str(), p.key.as_str()), ("bucket", ""));
    assert_eq!(
        parse_s3_path("http://bucket/key").unwrap_err(),
        "expected an s3:// URL, got http://bucket/key"
    );
    assert_eq!(
        parse_s3_path("s3://bucket").unwrap_err(),
        "s3 URL is missing a key: s3://bucket"
    );
}

#[test]
fn ranges_count_the_last_byte_in() {
    assert_eq!(range_header(0, 10), "bytes=0-9");
    assert_eq!(range_header(5, 6), "bytes=5-5");
    assert_eq!(range_header(0, 0), "bytes=0-0");
}

#[test]
fn sizes_and_pages() {
    assert_eq!(object_size(Some(12)), 12);
    assert_eq!(object_size(Some(-1)), 0);
    assert_eq!(object_size(None), 0);
    let token = || Some("t".to_string());
    assert_eq!(next_page(Some(true), token()), token());
    assert_eq!(next_page(Some(true), None), None);
    assert_eq!(next_page(Some(false), token()), None);
    assert_eq!(next_page(None, token()), None);
}

#[test]
fn a_closed_file_takes_nothing() {
    let mut b = WriteBuffer::new();
    b.write(b"ab").unwrap();
    b.write(b"c").unwrap();
    assert_eq!(b.close().unwrap(), b"abc");
    assert_eq!(b.write(b"d").unwrap_err(), "Cannot write to a closed file");
    assert_eq!(b.close().unwrap_err(), "File already closed");
}

#[test]
fn results_are_cut_to_the_limit() {
    let t = trim_rows(&vec![3, 4, 5], 100);
    assert_eq!((t.kept, t.row_count, t.truncated), (vec![3, 4, 5], 12, false));
    let t = trim_rows(&vec![3, 4, 5], 5);
    assert_eq!((t.kept, t.row_count, t.truncated), (vec![3, 2, 0], 5, true));
    let t = trim_rows(&vec![3, 4, 5], 7);
    assert_eq!((t.kept, t.row_count, t.truncated), (vec![3, 4, 0], 7, true));
    let t = trim_rows(&vec![3, 4], 7);
    assert_eq!((t.kept, t.row_count, t.truncated), (vec![3, 4], 7, false));
    let t = trim_rows(&vec![3], 0);
    assert_eq!((t.kept, t.row_count, t.truncated), (vec![0], 0, true));
    // A batch without rows leaves nothing out.
    let t = trim_rows(&vec![2, 0], 2);
    assert_eq!((t.kept, t.row_count, t.truncated), (vec![2, 0], 2, false));
    let t = trim_rows(&vec![0], 0);
    assert_eq!((t.kept, t.row_count, t.truncated), (vec![0], 0, false));
    let t = trim_rows(&vec![2, 0, 1, 4], 2);
    assert_eq!((t.kept, t.row_count, t.truncated), (vec![2, 0, 0, 0], 2, true));
    assert_eq!(default_max_rows(), 100_000);
}

fn raw(metric: &str, value: f64) -> RawSample {
    RawSample {
        metric: metric.to_string(),
        labels: Labels::new(),
        ts: 1_000,
        value: value.to_bits(),
    }
}

#[test]
fn refused_samples_do_not_hold_up_the_others() {
    let (accepted, rejected) = validate_batch(
        vec![raw("a", 1.0), raw("", 1.0), raw("b", 2.0), raw("c", f64::NAN)],
        1_000,
    );
    let names: Vec<&str> = accepted.iter().map(|s| s.metric.as_str()).collect();
    assert_eq!(names, vec!["a", "b"]);
    assert_eq!(rejected.len(), 2);
    assert_eq!(rejected[0].index, 1);
    assert_eq!(rejected[0].reason, "metric name is empty");
    assert_eq!(rejected[1].index, 3);
    assert_eq!(rejected[1].reason, "value is not finite: NaN");
    assert_eq!(
        first_rejection(&rejected),
        (2, Some("metric name is empty".to_string()))
    );
    assert_eq!(first_rejection(&Vec::new()), (0, None));
}

#[test]
fn failures_are_answered_by_route() {
    let e = || "why".to_string();
    let shown = |e: ApiError| (e.status, e.message);
    let told = |status: u16, m: &str| (status, m.to_string());
    assert_eq!(shown(sql_failure(SqlFailure::Plan(e()))), told(400, "sql parse/plan: why"));
    assert_eq!(shown(sql_failure(SqlFailure::Execute(e()))), told(400, "sql execute: why"));
    assert_eq!(shown(ingest_failure(IngestFailure::Backpressure(e()))), told(503, "why"));
    assert_eq!(shown(ingest_failure(IngestFailure::Task(e()))), told(500, "ingest task join: why"));
    assert_eq!(shown(ingest_failure(IngestFailure::Append(e()))), told(500, "ingest: why"));
    let write = |f: RemoteWriteFailure| shown(remote_write_failure(f));
    assert_eq!(write(RemoteWriteFailure::Backpressure(e())), told(503, "why"));
    assert_eq!(
        write(RemoteWriteFailure::DecodeTask(e())),
        told(500, "remote_write task join: why")
    );
    assert_eq!(write(RemoteWriteFailure::Decode(e())), told(400, "remote_write decode: why"));
    assert_eq!(
        write(RemoteWriteFailure::AppendTask(e())),
        told(500, "remote_write ingest task join: why")
    );
    assert_eq!(write(RemoteWriteFailure::Append(e())), told(503, "remote_write ingest: why"));
}

#[test]
fn nothing_is_appended_of_an_empty_batch() {
    assert!(to_append(Vec::new()).is_none());
    let (taken, _) = validate_batch(vec![raw("m", 1.0)], 1_000);
    assert_eq!(to_append(taken).unwrap().len(), 1);
}

#[test]
fn failures_have_their_status() {
    assert_eq!(ApiError::internal("x".to_string()).status, 500);
    assert_eq!(ApiError::bad_request("x".to_string()).status, 400);
    let e = ApiError::unavailable("later".to_string());
    assert_eq!((e.status, e.message.as_str()), (503, "later"));
}

#[test]
fn tables_have_their_columns() {
    assert_eq!((NAMESPACE, SERIES_TABLE, SAMPLES_TABLE), ("skaldberg", "series", "samples"));
    let series: Vec<(i32, &str)> = series_iceberg_schema().iter().map(|c| (c.id, c.name)).collect();
    assert_eq!(series, vec![(1, "series_id"), (2, "metric_name"), (3, "labels")]);
    assert_eq!(
        series_iceberg_schema()[2].ty,
        ColumnType::TextMap { key_id: 4, value_id: 5 }
    );
    let samples: Vec<(i32, &str, ColumnType)> =
        samples_iceberg_schema().iter().map(|c| (c.id, c.name, c.ty)).collect();
    assert_eq!(
        samples,
        vec![
            (1, "series_id", ColumnType::Long),
            (2, "timestamp", ColumnType::Timestamp),
            (3, "value", ColumnType::Double),
        ]
    );
}

#[test]
fn known_series_leave_missing_ids_out() {
    assert_eq!(known_series(&vec![Some(3), None, Some(-1)]), vec![3, -1]);
}
