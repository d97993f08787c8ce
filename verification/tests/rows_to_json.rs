use serde_json::Value;
use skaldberg::calendar::{
    instant_text, parse_rfc3339_to_us, us_to_ts_lit, DATE_FORMAT, FIRST_DAY, ISO_FORMAT, LAST_DAY,
};
use skaldberg::convert::{
    array_cell_to_json, record_batches_to_json_rows, Batch, Cell, JsonWriter, TimeUnit,
};
use skaldberg::grafana::{
    group_by_target, plan_query, search, QueryRequest, SearchRequest, Target, TimeRange,
};
use skaldberg::json::Json;
use skaldberg::labels::Labels;
use skaldberg::prometheus::rows::InstantPoint;

fn value(j: &Json) -> Value {
    match j {
        Json::Null => Value::Null,
        Json::Bool(b) => Value::from(*b),
        Json::Int(n) => Value::from(*n),
        Json::UInt(n) => Value::from(*n),
        Json::Double(bits) => Value::from(f64::from_bits(*bits)),
        Json::Seconds(us) => Value::from(*us as f64 / 1_000_000.0),
        Json::DoubleText(bits) => Value::from(f64::from_bits(*bits).to_string()),
        Json::Text(s) => Value::from(s.as_str()),
        Json::Array(items) => Value::Array(items.iter().map(value).collect()),
        Json::Object(fields) => {
            Value::Object(fields.iter().map(|(k, v)| (k.clone(), value(v))).collect())
        }
    }
}

fn parsed(text: &str) -> Value {
    serde_json::from_str(text).unwrap()
}

fn cell(c: Cell) -> Value {
    let w = JsonWriter { write: |j: &Json| value(j).to_string() };
    value(&array_cell_to_json(&w, &c))
}

fn text(s: &str) -> Cell {
    Cell::Text(s.to_string())
}

#[test]
fn plain_cells() {
    assert_eq!(cell(Cell::Null), Value::Null);
    assert_eq!(cell(Cell::Boolean(true)), parsed("true"));
    assert_eq!(cell(Cell::Signed(-7)), parsed("-7"));
    assert_eq!(cell(Cell::Unsigned(u64::MAX)), parsed("18446744073709551615"));
    assert_eq!(cell(Cell::Float(1.5f64.to_bits())), parsed("1.5"));
    assert_eq!(cell(text("x")), parsed("\"x\""));
    assert_eq!(
        cell(Cell::Unsupported("Binary".to_string())),
        parsed("\"unsupported:Binary\"")
    );
}

#[test]
fn doubles_that_json_lacks_are_texts() {
    assert_eq!(cell(Cell::Float(f64::NAN.to_bits())), parsed("\"NaN\""));
    assert_eq!(cell(Cell::Float(f64::INFINITY.to_bits())), parsed("\"Infinity\""));
    assert_eq!(
        cell(Cell::Float(f64::NEG_INFINITY.to_bits())),
        parsed("\"-Infinity\"")
    );
}

#[test]
fn instants_are_iso_texts() {
    assert_eq!(
        cell(Cell::Timestamp(TimeUnit::Second, 0)),
        parsed("\"1970-01-01T00:00:00.000000Z\"")
    );
    assert_eq!(
        cell(Cell::Timestamp(TimeUnit::Millisecond, 1_714_800_000_123)),
        parsed("\"2024-05-04T05:20:00.123000Z\"")
    );
    assert_eq!(
        cell(Cell::Timestamp(TimeUnit::Microsecond, 1_714_800_000_123_456)),
        parsed("\"2024-05-04T05:20:00.123456Z\"")
    );
    assert_eq!(
        cell(Cell::Timestamp(TimeUnit::Nanosecond, 1_714_800_000_123_456_789)),
        parsed("\"2024-05-04T05:20:00.123456Z\"")
    );
    assert_eq!(
        cell(Cell::Timestamp(TimeUnit::Microsecond, -1)),
        parsed("\"1969-12-31T23:59:59.999999Z\"")
    );
    assert_eq!(
        cell(Cell::Timestamp(TimeUnit::Second, i64::MAX)),
        parsed("\"ts_oor:9223372036854775807\"")
    );
}

#[test]
fn days_are_iso_dates() {
    assert_eq!(cell(Cell::Date(0)), parsed("\"1970-01-01\""));
    assert_eq!(cell(Cell::Date(-1)), parsed("\"1969-12-31\""));
    assert_eq!(cell(Cell::Date(i32::MAX)), parsed("\"date32_oor:2147483647\""));
}

#[test]
fn nested_cells() {
    assert_eq!(
        cell(Cell::Mapping(vec![
            (text("job"), text("api")),
            (Cell::Null, text("gone")),
            (Cell::Signed(3), Cell::Null),
            (text("job"), text("web")),
        ])),
        parsed("{\"job\": \"web\", \"3\": null}")
    );
    assert_eq!(
        cell(Cell::List(vec![Cell::Signed(1), Cell::Null])),
        parsed("[1, null]")
    );
    assert_eq!(
        cell(Cell::Struct(vec![("a".to_string(), Cell::Boolean(false))])),
        parsed("{\"a\": false}")
    );
}

#[test]
fn rows_of_all_batches_in_order() {
    let w = JsonWriter { write: |j: &Json| value(j).to_string() };
    let batch = |n: i64| Batch {
        columns: vec!["n".to_string(), "s".to_string()],
        rows: vec![vec![Cell::Signed(n), text("x")], vec![Cell::Signed(n + 1), Cell::Null]],
    };
    let rows = record_batches_to_json_rows(&w, &vec![batch(1), batch(3)]);
    let all: Vec<Value> = rows.into_iter().map(|r| value(&Json::Object(r))).collect();
    assert_eq!(
        Value::Array(all),
        parsed(
            "[{\"n\":1,\"s\":\"x\"},{\"n\":2,\"s\":null},{\"n\":3,\"s\":\"x\"},{\"n\":4,\"s\":null}]"
        )
    );
}

#[test]
fn instants_of_sql_literals() {
    assert_eq!(us_to_ts_lit(1_714_800_000_123_456), "2024-05-04 05:20:00.123456");
    assert_eq!(us_to_ts_lit(-1), "1969-12-31 23:59:59.999999");
    assert_eq!(us_to_ts_lit(i64::MAX), "1970-01-01 00:00:00.000000");
    assert_eq!(instant_text(i64::MAX, 0, ISO_FORMAT), None);
}

#[test]
fn the_calendar_ends_where_it_is_said_to() {
    let day = |secs: i64| instant_text(secs, 0, DATE_FORMAT);
    assert_eq!(day(FIRST_DAY * 86_400).as_deref(), Some("-262143-01-01"));
    assert_eq!(day(FIRST_DAY * 86_400 - 1), None);
    assert_eq!(day(LAST_DAY * 86_400 + 86_399).as_deref(), Some("+262142-12-31"));
    assert_eq!(day(LAST_DAY * 86_400 + 86_400), None);
}

#[test]
fn rfc3339_is_read_in_any_zone() {
    assert_eq!(
        parse_rfc3339_to_us("2024-05-04T07:20:00.5+02:00"),
        Some(1_714_800_000_500_000)
    );
    assert_eq!(parse_rfc3339_to_us("2024-05-04"), None);
}

#[test]
fn search_finds_names_by_part() {
    let rows = || vec![Some("cpu_seconds".to_string()), None, Some("mem".to_string())];
    let find = |t: &str| search(&SearchRequest { target: t.to_string() }, rows());
    assert_eq!(find(""), vec!["cpu_seconds", "mem"]);
    assert_eq!(find("sec"), vec!["cpu_seconds"]);
    assert!(find("disk").is_empty());
}

fn request(from: &str, to: &str, targets: &[&str], max: Option<i64>) -> QueryRequest {
    QueryRequest {
        range: TimeRange { from: from.to_string(), to: to.to_string() },
        targets: targets.iter().map(|t| Target { target: t.to_string() }).collect(),
        max_data_points: max,
    }
}

#[test]
fn grafana_query_is_planned() {
    let (a, b) = ("2024-05-04T05:20:00Z", "2024-05-04T05:25:00Z");
    let sql = plan_query(&request(a, b, &["up", "it's"], Some(10))).unwrap().unwrap();
    assert_eq!(
        sql.split_whitespace().collect::<Vec<_>>().join(" "),
        "SELECT metric_name, labels, timestamp, value FROM sk_metric WHERE metric_name IN ('up', \
         'it''s') AND timestamp BETWEEN TIMESTAMP '2024-05-04 05:20:00.000000' AND TIMESTAMP \
         '2024-05-04 05:25:00.000000' ORDER BY metric_name, timestamp LIMIT 10"
    );
    let sql = plan_query(&request(a, b, &["up"], Some(0))).unwrap().unwrap();
    assert!(sql.ends_with("ORDER BY metric_name, timestamp"));
    assert!(plan_query(&request("?", "?", &[], None)).unwrap().is_none());
}

#[test]
fn grafana_query_is_refused() {
    let (a, b) = ("2024-05-04T05:20:00Z", "2024-05-04T05:25:00Z");
    let refusal = |from: &str, to: &str| {
        let e = plan_query(&request(from, to, &["up"], None)).unwrap_err();
        assert_eq!(e.status, 400);
        e.message
    };
    assert_eq!(refusal("x", b), "range.from is not RFC-3339");
    assert_eq!(refusal(a, "x"), "range.to is not RFC-3339");
    assert_eq!(refusal(b, a), "range.to is before range.from");
}

#[test]
fn grafana_answers_one_target_per_series() {
    let point = |name: &str, labels: &[(&str, &str)], ts_us: i64, v: f64| InstantPoint {
        metric_name: name.to_string(),
        labels: Labels::from_pairs(
            labels.iter().map(|(k, v)| (k.to_string(), v.to_string())).collect(),
        ),
        ts_us,
        value: v.to_bits(),
    };
    let answer = group_by_target(vec![
        point("up", &[("job", "b"), ("az", "1")], 2_999, 1.0),
        point("up", &[], -1_999, f64::NAN),
        point("up", &[("az", "1"), ("job", "b")], 5_000, 2.0),
    ]);
    let seen: Vec<(String, Vec<(Value, Value)>)> = answer
        .iter()
        .map(|t| {
            let points = t.datapoints.iter().map(|(v, ts)| (value(v), value(ts))).collect();
            (t.target.clone(), points)
        })
        .collect();
    assert_eq!(
        seen,
        vec![
            ("up".to_string(), vec![(Value::Null, parsed("-1"))]),
            (
                "up{az=1,job=b}".to_string(),
                vec![(parsed("1.0"), parsed("2")), (parsed("2.0"), parsed("5"))]
            ),
        ]
    );
}
