use serde_json::Value;
use skaldberg::json::Json;
use skaldberg::labels::Labels;
use skaldberg::prometheus::aggregate::{
    aggregate_instant_points, aggregate_range_points, retained_labels,
};
use skaldberg::prometheus::ast::{parse, Grouping, QueryExpr, Selector};
use skaldberg::prometheus::catalog::{
    label_names, label_values, names_body, parse_series_matches, series_body, SeriesId, SeriesList,
};
use skaldberg::prometheus::decode::{
    aggregate_rows_to_points, aggregate_rows_to_series, instant_selector, labels_to_btree,
    range_fn_points, range_range_fn, range_selector, GroupRow, ValueRow,
};
use skaldberg::prometheus::error::PromError;
use skaldberg::prometheus::histogram::{
    histogram_quantile_instant, histogram_quantile_range, parse_le, NumberReader,
};
use skaldberg::prometheus::numbers::{
    apply_agg, apply_bin_value, comparison_passes, compute_range_fn, delta_with_reset_and_secs,
    quantile_from_buckets, Arithmetic,
};
use skaldberg::prometheus::operate::{
    apply_scalar_vector_instant, apply_scalar_vector_range, apply_vector_vector_instant,
    apply_vector_vector_range, operate_instant, operate_range, Side, SideR,
};
use skaldberg::prometheus::plan::{AggOp, BinOp, RangeFnOp};
use skaldberg::prometheus::response::{
    error_body, instant_points_to_json, range_points_to_json, success_matrix, success_vector,
};
use skaldberg::prometheus::rows::{series_key, InstantPoint, RangePoints};
use skaldberg::prometheus::times::{
    parse_duration_us, parse_timestamp, read_instant, read_range, to_integer, QueryParams,
    QueryRangeParams,
};
use skaldberg::prometheus::topk::{topk_instant_points, topk_range_points};

fn operate(op: BinOp, a: u64, b: u64) -> u64 {
    let (x, y) = (f64::from_bits(a), f64::from_bits(b));
    let r = match op {
        BinOp::Add => x + y,
        BinOp::Sub => x - y,
        BinOp::Mul => x * y,
        BinOp::Div => x / y,
        BinOp::Mod => x % y,
        _ => x.powf(y),
    };
    if r.is_nan() {
        f64::NAN.to_bits()
    } else {
        r.to_bits()
    }
}

fn whole(n: i128) -> u64 {
    (n as f64).to_bits()
}

fn read(s: &str) -> Option<u64> {
    s.parse::<f64>().ok().map(f64::to_bits)
}

type Ar = Arithmetic<fn(BinOp, u64, u64) -> u64, fn(i128) -> u64>;

fn ar() -> Ar {
    Arithmetic { operate, whole }
}

fn reader() -> NumberReader<fn(&str) -> Option<u64>> {
    NumberReader { read }
}

fn b(v: f64) -> u64 {
    v.to_bits()
}

fn f(bits: u64) -> f64 {
    f64::from_bits(bits)
}

fn labels(pairs: &[(&str, &str)]) -> Labels {
    Labels::from_pairs(pairs.iter().map(|(k, v)| (k.to_string(), v.to_string())).collect())
}

fn point(name: &str, pairs: &[(&str, &str)], ts_us: i64, v: f64) -> InstantPoint {
    InstantPoint { metric_name: name.to_string(), labels: labels(pairs), ts_us, value: b(v) }
}

fn range(name: &str, pairs: &[(&str, &str)], points: &[(i64, f64)]) -> RangePoints {
    RangePoints {
        metric_name: name.to_string(),
        labels: labels(pairs),
        points: points.iter().map(|(t, v)| (*t, b(*v))).collect(),
    }
}

/// Points as texts: `name{labels}@time=value`.
fn shown(points: &[InstantPoint]) -> Vec<String> {
    points
        .iter()
        .map(|p| format!("{}@{}={}", series_key(&p.metric_name, &p.labels), p.ts_us, f(p.value)))
        .collect()
}

fn shown_range(series: &[RangePoints]) -> Vec<String> {
    series
        .iter()
        .map(|s| {
            let points: Vec<String> =
                s.points.iter().map(|(t, v)| format!("{}={}", t, f(*v))).collect();
            format!("{} {}", series_key(&s.metric_name, &s.labels), points.join(" "))
        })
        .collect()
}

fn by(names: &[&str]) -> Grouping {
    Grouping::Include(names.iter().map(|l| l.to_string()).collect())
}

fn without(names: &[&str]) -> Grouping {
    Grouping::Exclude(names.iter().map(|l| l.to_string()).collect())
}

fn selector(q: &str) -> Selector {
    match parse(q).unwrap() {
        QueryExpr::VectorSelector(s) => s,
        other => panic!("{:?}", other),
    }
}

fn value(j: &Json) -> Value {
    match j {
        Json::Null => Value::Null,
        Json::Bool(x) => Value::from(*x),
        Json::Int(n) => Value::from(*n),
        Json::UInt(n) => Value::from(*n),
        Json::Double(bits) => Value::from(f(*bits)),
        Json::Seconds(us) => Value::from(*us as f64 / 1_000_000.0),
        Json::DoubleText(bits) => Value::from(f(*bits).to_string()),
        Json::Text(s) => Value::from(s.as_str()),
        Json::Array(items) => Value::Array(items.iter().map(value).collect()),
        Json::Object(fields) => {
            Value::Object(fields.iter().map(|(k, v)| (k.clone(), value(v))).collect())
        }
    }
}

fn parsed(text: &str) -> Value {
    serde_json::from_str(text).unwrap()
}

// ---------- numbers ----------

#[test]
fn binary_operators() {
    let apply = |x: f64, op: BinOp, y: f64| f(apply_bin_value(&ar(), b(x), b(y), op));
    assert_eq!(apply(5.0, BinOp::Add, 2.0), 7.0);
    assert_eq!(apply(5.0, BinOp::Sub, 2.0), 3.0);
    assert_eq!(apply(5.0, BinOp::Mul, 2.0), 10.0);
    assert_eq!(apply(5.0, BinOp::Div, 2.0), 2.5);
    assert_eq!(apply(5.0, BinOp::Mod, 3.0), 2.0);
    assert_eq!(apply(5.0, BinOp::Pow, 2.0), 25.0);
    assert_eq!(apply(5.0, BinOp::Lt, 2.0), 0.0);
    assert_eq!(apply(5.0, BinOp::Ge, 2.0), 1.0);
    assert_eq!(apply(f64::NAN, BinOp::Ne, f64::NAN), 1.0);
}

#[test]
fn comparisons_agree_with_doubles() {
    let values = [
        0.0, -0.0, 1.0, -1.0, 1e-320, -1e-320, f64::MAX, f64::MIN, f64::INFINITY,
        f64::NEG_INFINITY, f64::NAN,
    ];
    for x in values {
        for y in values {
            let passes = |op: BinOp| comparison_passes(b(x), b(y), op);
            assert_eq!(passes(BinOp::Eq), x == y, "{} == {}", x, y);
            assert_eq!(passes(BinOp::Ne), x != y, "{} != {}", x, y);
            assert_eq!(passes(BinOp::Lt), x < y, "{} < {}", x, y);
            assert_eq!(passes(BinOp::Le), x <= y, "{} <= {}", x, y);
            assert_eq!(passes(BinOp::Gt), x > y, "{} > {}", x, y);
            assert_eq!(passes(BinOp::Ge), x >= y, "{} >= {}", x, y);
        }
    }
}

#[test]
fn aggregations() {
    let agg = |op: AggOp, v: &[f64]| f(apply_agg(&ar(), op, &v.iter().map(|x| b(*x)).collect()));
    let v = [3.0, 1.0, 2.0];
    assert_eq!(agg(AggOp::Sum, &v), 6.0);
    assert_eq!(agg(AggOp::Avg, &v), 2.0);
    assert_eq!(agg(AggOp::Min, &v), 1.0);
    assert_eq!(agg(AggOp::Max, &v), 3.0);
    assert_eq!(agg(AggOp::Count, &v), 3.0);
    assert_eq!(agg(AggOp::Min, &[f64::NAN, 2.0]), 2.0);
    assert_eq!(agg(AggOp::Max, &[f64::NAN, 2.0]), 2.0);
    assert_eq!(agg(AggOp::Sum, &[]), 0.0);
    assert_eq!(agg(AggOp::Avg, &[]), 0.0);
    assert_eq!(agg(AggOp::Min, &[]), f64::INFINITY);
    assert_eq!(agg(AggOp::Max, &[]), f64::NEG_INFINITY);
    assert_eq!(agg(AggOp::Count, &[]), 0.0);
}

#[test]
fn range_functions_adjust_for_resets() {
    let points: Vec<(i64, u64)> =
        [(0, 10.0), (10_000_000, 30.0), (20_000_000, 5.0), (40_000_000, 6.0)]
            .iter()
            .map(|(t, v)| (*t, b(*v)))
            .collect();
    let run = |op: RangeFnOp| compute_range_fn(&ar(), &points, op).map(f);
    // 20 up, reset to 5, 1 up: 26 in 40 seconds.
    assert_eq!(
        delta_with_reset_and_secs(&ar(), &points).map(|(d, s)| (f(d), f(s))),
        Some((26.0, 40.0))
    );
    assert_eq!(run(RangeFnOp::Rate), Some(0.65));
    assert_eq!(run(RangeFnOp::Increase), Some(26.0));
    assert_eq!(run(RangeFnOp::Irate), Some(0.05));
    assert_eq!(run(RangeFnOp::Delta), Some(-4.0));
    let one = &points[..1];
    for op in [RangeFnOp::Rate, RangeFnOp::Increase, RangeFnOp::Irate, RangeFnOp::Delta] {
        assert_eq!(compute_range_fn(&ar(), one, op), None);
    }
    let same = vec![(5, b(1.0)), (5, b(2.0))];
    assert_eq!(compute_range_fn(&ar(), &same, RangeFnOp::Rate), None);
    assert_eq!(compute_range_fn(&ar(), &same, RangeFnOp::Irate), None);
    assert_eq!(compute_range_fn(&ar(), &same, RangeFnOp::Delta).map(f), Some(1.0));
}

#[test]
fn quantiles_interpolate() {
    let buckets: Vec<(u64, u64)> =
        [(1.0, 10.0), (2.0, 20.0), (f64::INFINITY, 40.0)].iter().map(|(l, c)| (b(*l), b(*c))).collect();
    let q = |q: f64| quantile_from_buckets(&ar(), &buckets, b(q)).map(f);
    assert_eq!(q(0.125), Some(0.5));
    assert_eq!(q(0.375), Some(1.5));
    assert_eq!(q(0.9), Some(2.0));
    assert_eq!(q(0.0), Some(1.0));
    assert_eq!(q(-1.0), Some(1.0));
    assert_eq!(q(1.0), Some(2.0));
    assert_eq!(q(f64::NAN), None);
    assert_eq!(quantile_from_buckets(&ar(), &buckets[..1].to_vec(), b(0.5)), None);
    let empty = vec![(b(1.0), b(0.0)), (b(f64::INFINITY), b(0.0))];
    assert_eq!(quantile_from_buckets(&ar(), &empty, b(0.5)), None);
}

#[test]
fn numbers_are_cut_to_integers() {
    for v in [0.0, -0.0, 1.9, -1.9, 1e18, -1e18, 1e300, -1e300, f64::INFINITY, f64::NAN, 4.9e-324] {
        assert_eq!(to_integer(b(v)), v as i64, "{}", v);
    }
}

// ---------- series ----------

#[test]
fn the_latest_sample_of_each_series_is_taken() {
    let rows = vec![
        point("m", &[("job", "b")], 10, 1.0),
        point("m", &[("job", "a")], 30, 2.0),
        point("m", &[("job", "b")], 20, 3.0),
        point("m", &[("job", "b")], 20, 4.0),
        point("m", &[("job", "a")], 5, 5.0),
    ];
    assert_eq!(
        shown(&instant_selector(&selector("m"), rows)),
        vec!["m{job=a}@30=2", "m{job=b}@20=3"]
    );
}

#[test]
fn series_keys_tell_series_apart() {
    let series: [(&str, &[(&str, &str)]); 7] = [
        ("m", &[]),
        ("m", &[("", "")]),
        ("m", &[("a", "b")]),
        ("m", &[("a", "b=c")]),
        ("m", &[("a", "b"), ("c", "d")]),
        ("n", &[("a", "b"), ("c", "d")]),
        ("m}", &[]),
    ];
    for (i, (m1, l1)) in series.iter().enumerate() {
        for (j, (m2, l2)) in series.iter().enumerate() {
            assert_eq!(series_key(m1, &labels(l1)) == series_key(m2, &labels(l2)), i == j);
        }
    }
    assert_eq!(series_key("m", &labels(&[("a", "b"), ("c", "d")])), "m{a=b,c=d}");
    // A comma in a value is where this ends.
    assert_eq!(series_key("m", &labels(&[("a", "b,c=d")])), "m{a=b,c=d}");
}

#[test]
fn regex_matchers_filter_rows() {
    let rows = || {
        vec![
            point("m", &[("job", "api")], 1, 1.0),
            point("m", &[("job", "web")], 1, 2.0),
            point("m", &[], 1, 3.0),
        ]
    };
    let kept = |q: &str| shown(&instant_selector(&selector(q), rows()));
    assert_eq!(kept("m{job=~\"a.*\"}"), vec!["m{job=api}@1=1"]);
    assert_eq!(kept("m{job!~\"a.*\"}"), vec!["m{job=web}@1=2", "m{}@1=3"]);
    // The whole label has to match.
    assert!(kept("m{job=~\"a\"}").is_empty());
    // SQL has decided the others.
    assert_eq!(kept("m{job=\"api\"}").len(), 3);
}

#[test]
fn regex_matchers_on_the_name_filter_rows() {
    let rows = || {
        vec![
            point("up", &[("job", "api")], 1, 1.0),
            point("upper", &[], 1, 2.0),
            point("down", &[("job", "up")], 1, 3.0),
        ]
    };
    let kept = |q: &str| shown(&instant_selector(&selector(q), rows()));
    assert_eq!(kept("{__name__=~\"up.*\"}"), vec!["upper{}@1=2", "up{job=api}@1=1"]);
    assert_eq!(kept("{__name__=~\"up\"}"), vec!["up{job=api}@1=1"]);
    assert_eq!(kept("{__name__!~\"up.*\", job!=\"\"}"), vec!["down{job=up}@1=3"]);
    let id = |name: &str| SeriesId {
        metric_name: name.to_string(),
        labels: labels(&[]),
    };
    let mut list = SeriesList::new();
    list.add_rows(&selector("{__name__=~\"up.*\"}"), vec![id("down"), id("upper"), id("up")]);
    let names: Vec<String> = list.into_series().into_iter().map(|s| s.metric_name).collect();
    assert_eq!(names, vec!["upper", "up"]);
}

#[test]
fn rows_are_grouped_by_series() {
    let rows = vec![
        point("m", &[("job", "b")], 10, 1.0),
        point("m", &[("job", "a")], 10, 2.0),
        point("m", &[("job", "b")], 5, 3.0),
    ];
    assert_eq!(
        shown_range(&range_selector(&selector("m"), rows)),
        vec!["m{job=a} 10=2", "m{job=b} 10=1 5=3"]
    );
}

#[test]
fn range_function_steps_through_its_windows() {
    let rows = vec![
        point("m", &[], 0, 0.0),
        point("m", &[], 10_000_000, 10.0),
        point("m", &[], 20_000_000, 30.0),
        point("n", &[], 20_000_000, 1.0),
    ];
    // Windows close on both sides: at 10 s it holds both 0 s and 10 s.
    let out = range_range_fn(
        &ar(),
        &selector("m"),
        rows,
        10_000_000,
        RangeFnOp::Rate,
        0,
        40_000_000,
        10_000_000,
    );
    assert_eq!(shown_range(&out), vec!["m{} 10000000=1 20000000=2"]);
}

#[test]
fn range_function_rows_drop_what_is_not_finite() {
    let row = |name: &str, value: Option<f64>| ValueRow {
        metric_name: name.to_string(),
        labels: labels(&[]),
        value: value.map(b),
    };
    let rows = vec![row("a", Some(1.5)), row("b", None), row("c", Some(f64::NAN))];
    assert_eq!(shown(&range_fn_points(&selector("m"), rows, 7)), vec!["a{}@7=1.5"]);
}

#[test]
fn grouped_rows_leave_missing_labels_out() {
    let keys = vec!["job".to_string(), "az".to_string()];
    let row = |ts_us: i64, job: Option<&str>, az: Option<&str>, value: Option<f64>| GroupRow {
        ts_us,
        labels: vec![job.map(str::to_string), az.map(str::to_string)],
        value: value.map(b),
    };
    let rows = || {
        vec![
            row(1, Some("b"), None, Some(1.0)),
            row(1, Some("a"), Some("z"), Some(2.0)),
            row(2, Some("b"), None, None),
            row(3, Some("b"), None, Some(4.0)),
        ]
    };
    assert_eq!(
        shown(&aggregate_rows_to_points(rows(), &keys)),
        vec!["{job=b}@1=1", "{az=z,job=a}@1=2", "{job=b}@3=4"]
    );
    assert_eq!(
        shown_range(&aggregate_rows_to_series(rows(), &keys)),
        vec!["{az=z,job=a} 1=2", "{job=b} 1=1 3=4"]
    );
}

#[test]
fn aggregates_from_sql_are_those_of_the_points() {
    let sel = selector("m{env=\"prod\"}");
    let samples = || {
        vec![
            point("m", &[("env", "prod"), ("job", "b"), ("pod", "1")], 10, 1.0),
            point("m", &[("env", "prod"), ("job", "b"), ("pod", "1")], 20, 2.0),
            point("m", &[("env", "prod"), ("job", "b"), ("pod", "2")], 10, 4.0),
            point("m", &[("env", "prod"), ("job", "a")], 20, 8.0),
            point("m", &[("env", "prod")], 30, 16.0),
        ]
    };
    let row = |ts_us: i64, labels: &[Option<&str>], value: f64| GroupRow {
        ts_us,
        labels: labels.iter().map(|l| l.map(str::to_string)).collect(),
        value: Some(b(value)),
    };
    let points = |op: AggOp, modifier: Option<&Grouping>| {
        aggregate_range_points(&ar(), range_selector(&sel, samples()), op, modifier)
    };
    // The rows as `GROUP BY` gives them, those of a group by time.
    let job = by(&["job"]);
    let keys = vec!["job".to_string()];
    let summed = vec![
        row(20, &[Some("a")], 8.0),
        row(10, &[Some("b")], 5.0),
        row(20, &[Some("b")], 2.0),
        row(30, &[None], 16.0),
    ];
    let out = shown_range(&aggregate_rows_to_series(summed, &keys));
    assert_eq!(out, vec!["{} 30=16", "{job=a} 20=8", "{job=b} 10=5 20=2"]);
    assert_eq!(out, shown_range(&points(AggOp::Sum, Some(&job))));
    let counted = vec![
        row(20, &[Some("a")], 1.0),
        row(10, &[Some("b")], 2.0),
        row(20, &[Some("b")], 1.0),
        row(30, &[None], 1.0),
    ];
    assert_eq!(
        shown_range(&aggregate_rows_to_series(counted, &keys)),
        shown_range(&points(AggOp::Count, Some(&job)))
    );
    let least = vec![row(10, &[], 1.0), row(20, &[], 2.0), row(30, &[], 16.0)];
    let out = shown_range(&aggregate_rows_to_series(least, &vec![]));
    assert_eq!(out, vec!["{} 10=1 20=2 30=16"]);
    assert_eq!(out, shown_range(&points(AggOp::Min, None)));
}

#[test]
fn aggregates_from_sql_at_an_instant_are_those_of_the_points() {
    let sel = selector("m");
    let samples = || {
        vec![
            point("m", &[("job", "b"), ("pod", "1")], 10, 1.0),
            point("m", &[("job", "b"), ("pod", "1")], 20, 2.0),
            point("m", &[("job", "b"), ("pod", "2")], 10, 4.0),
            point("m", &[("job", "a")], 20, 8.0),
        ]
    };
    let row = |job: &str, value: f64| GroupRow {
        ts_us: 30,
        labels: vec![Some(job.to_string())],
        value: Some(b(value)),
    };
    let points = |op: AggOp, modifier: Option<&Grouping>| {
        aggregate_instant_points(&ar(), instant_selector(&sel, samples()), op, modifier, 30)
    };
    // The latest samples are 2 and 4 of the one job, and 8 of the other.
    let keys = vec!["job".to_string()];
    let mut out = shown(&aggregate_rows_to_points(vec![row("b", 6.0), row("a", 8.0)], &keys));
    assert_eq!(out, vec!["{job=b}@30=6", "{job=a}@30=8"]);
    out.sort();
    assert_eq!(out, shown(&points(AggOp::Sum, Some(&by(&["job"])))));
    // Without a `GROUP BY` clause there is a row even where nothing was selected.
    let nothing = |value: Option<f64>| {
        vec![GroupRow { ts_us: 30, labels: vec![], value: value.map(b) }]
    };
    assert_eq!(shown(&aggregate_rows_to_points(nothing(None), &vec![])), Vec::<String>::new());
    assert_eq!(shown(&aggregate_rows_to_points(nothing(Some(0.0)), &vec![])), vec!["{}@30=0"]);
    assert_eq!(
        shown(&aggregate_instant_points(&ar(), vec![], AggOp::Count, None, 30)),
        Vec::<String>::new()
    );
}

#[test]
fn label_maps_leave_nulls_out() {
    let some = |s: &str| Some(s.to_string());
    let l = labels_to_btree(vec![
        (some("b"), some("1")),
        (None, some("x")),
        (some("c"), None),
        (some("a"), some("2")),
        (some("b"), some("3")),
    ]);
    assert_eq!(series_key("m", &l), "m{a=2,b=3}");
}

// ---------- aggregation ----------

fn fleet() -> Vec<InstantPoint> {
    vec![
        point("m", &[("job", "a"), ("az", "1")], 5, 1.0),
        point("m", &[("job", "b"), ("az", "1")], 6, 2.0),
        point("m", &[("job", "a"), ("az", "2")], 7, 4.0),
    ]
}

#[test]
fn labels_are_retained() {
    let l = labels(&[("job", "a"), ("az", "1")]);
    let kept = |g: Option<&Grouping>| series_key("", &retained_labels(&l, g));
    assert_eq!(kept(None), "{}");
    assert_eq!(kept(Some(&by(&["job", "host"]))), "{job=a}");
    assert_eq!(kept(Some(&without(&["job"]))), "{az=1}");
}

#[test]
fn points_are_aggregated_by_labels() {
    let agg = |op: AggOp, g: Option<&Grouping>| {
        shown(&aggregate_instant_points(&ar(), fleet(), op, g, 9))
    };
    assert_eq!(agg(AggOp::Sum, None), vec!["{}@9=7"]);
    assert_eq!(agg(AggOp::Sum, Some(&by(&["job"]))), vec!["{job=a}@9=5", "{job=b}@9=2"]);
    assert_eq!(agg(AggOp::Max, Some(&without(&["job"]))), vec!["{az=1}@9=2", "{az=2}@9=4"]);
    assert_eq!(agg(AggOp::Count, Some(&by(&["job"]))), vec!["{job=a}@9=2", "{job=b}@9=1"]);
}

#[test]
fn series_are_aggregated_by_timestamp() {
    let series = vec![
        range("m", &[("job", "a"), ("az", "1")], &[(2, 1.0), (1, 10.0)]),
        range("m", &[("job", "a"), ("az", "2")], &[(2, 2.0), (3, 20.0)]),
        range("m", &[("job", "b")], &[]),
    ];
    assert_eq!(
        shown_range(&aggregate_range_points(&ar(), series, AggOp::Sum, Some(&by(&["job"])))),
        vec!["{job=a} 1=10 2=3 3=20"]
    );
}

#[test]
fn the_best_are_kept() {
    let top = |n: usize, top: bool, g: Option<&Grouping>| {
        shown(&topk_instant_points(fleet(), n, top, g))
    };
    assert_eq!(top(2, true, None), vec!["m{az=2,job=a}@7=4", "m{az=1,job=b}@6=2"]);
    assert_eq!(top(1, false, None), vec!["m{az=1,job=a}@5=1"]);
    assert_eq!(
        top(1, true, Some(&by(&["az"]))),
        vec!["m{az=1,job=b}@6=2", "m{az=2,job=a}@7=4"]
    );
    assert!(top(0, true, None).is_empty());
    assert_eq!(top(10, true, None).len(), 3);
}

#[test]
fn the_best_are_kept_at_each_timestamp() {
    let series = vec![
        range("m", &[("i", "1")], &[(1, 5.0), (2, 1.0)]),
        range("m", &[("i", "2")], &[(1, 4.0), (2, 3.0), (3, 1.0)]),
    ];
    assert_eq!(
        shown_range(&topk_range_points(series, 1, true, None)),
        vec!["m{i=1} 1=5", "m{i=2} 2=3 3=1"]
    );
}

// ---------- operators on vectors ----------

#[test]
fn scalars_work_on_every_point() {
    let run = |op: BinOp, return_bool: bool, left: bool| {
        shown(&apply_scalar_vector_instant(&ar(), b(2.0), fleet(), op, return_bool, left))
    };
    assert_eq!(
        run(BinOp::Sub, false, true),
        vec!["{az=1,job=a}@5=1", "{az=1,job=b}@6=0", "{az=2,job=a}@7=-2"]
    );
    assert_eq!(run(BinOp::Gt, false, false), vec!["m{az=2,job=a}@7=4"]);
    assert_eq!(run(BinOp::Gt, false, true), vec!["m{az=1,job=a}@5=1"]);
    assert_eq!(
        run(BinOp::Ge, true, false),
        vec!["{az=1,job=a}@5=0", "{az=1,job=b}@6=1", "{az=2,job=a}@7=1"]
    );
    let series = || {
        vec![
            range("m", &[("i", "1")], &[(1, 1.0), (2, 5.0)]),
            range("m", &[("i", "2")], &[(1, 0.0)]),
        ]
    };
    let run = |op: BinOp| {
        shown_range(&apply_scalar_vector_range(&ar(), b(2.0), series(), op, false, false))
    };
    assert_eq!(run(BinOp::Gt), vec!["m{i=1} 2=5"]);
    assert_eq!(run(BinOp::Mul), vec!["{i=1} 1=2 2=10", "{i=2} 1=0"]);
}

#[test]
fn vectors_are_matched_by_all_labels() {
    let rhs = || {
        vec![
            point("n", &[("az", "1"), ("job", "a")], 1, 3.0),
            point("n", &[("az", "1"), ("job", "a")], 1, 10.0),
            point("n", &[("az", "2"), ("job", "a")], 1, 2.0),
            point("n", &[("az", "9")], 1, 2.0),
        ]
    };
    let run = |op: BinOp, return_bool: bool| {
        shown(&apply_vector_vector_instant(&ar(), fleet(), rhs(), op, return_bool))
    };
    assert_eq!(run(BinOp::Div, false), vec!["{az=1,job=a}@5=0.1", "{az=2,job=a}@7=2"]);
    assert_eq!(run(BinOp::Gt, false), vec!["m{az=2,job=a}@7=4"]);
    assert_eq!(run(BinOp::Lt, true), vec!["{az=1,job=a}@5=1", "{az=2,job=a}@7=0"]);
    let l = vec![range("m", &[("i", "1")], &[(1, 1.0), (2, 5.0), (3, 6.0)])];
    let r = vec![range("n", &[("i", "1")], &[(2, 4.0), (3, 7.0), (3, 8.0)])];
    assert_eq!(
        shown_range(&apply_vector_vector_range(&ar(), l, r, BinOp::Add, false)),
        vec!["{i=1} 2=9 3=14"]
    );
}

#[test]
fn operands_of_both_kinds() {
    let vector = || Side::Vector(vec![point("m", &[], 1, 8.0)]);
    let run = |l: Side, r: Side| shown(&operate_instant(&ar(), l, r, BinOp::Div, false));
    assert_eq!(run(Side::Scalar(b(4.0)), vector()), vec!["{}@1=0.5"]);
    assert_eq!(run(vector(), Side::Scalar(b(4.0))), vec!["{}@1=2"]);
    assert_eq!(run(vector(), vector()), vec!["{}@1=1"]);
    assert!(run(Side::Scalar(b(1.0)), Side::Scalar(b(1.0))).is_empty());
    let out = operate_range(
        &ar(),
        SideR::Scalar(b(1.0)),
        SideR::Vector(vec![range("m", &[], &[(1, 2.0)])]),
        BinOp::Sub,
        false,
    );
    assert_eq!(shown_range(&out), vec!["{} 1=-1"]);
}

// ---------- histograms ----------

#[test]
fn bucket_bounds_are_read() {
    let le = |s: &str| parse_le(&reader(), s).map(f);
    assert_eq!(le("+Inf"), Some(f64::INFINITY));
    assert_eq!(le("INF"), Some(f64::INFINITY));
    assert_eq!(le("-inf"), Some(f64::NEG_INFINITY));
    assert_eq!(le("0.5"), Some(0.5));
    assert_eq!(le("half"), None);
}

#[test]
fn quantiles_of_histograms() {
    let buckets = vec![
        point("b", &[("job", "a"), ("le", "+Inf")], 1, 40.0),
        point("b", &[("job", "a"), ("le", "2")], 1, 20.0),
        point("b", &[("job", "a"), ("le", "1")], 1, 10.0),
        point("b", &[("job", "b"), ("le", "1")], 1, 10.0),
        point("b", &[("job", "c")], 1, 10.0),
    ];
    assert_eq!(
        shown(&histogram_quantile_instant(&ar(), &reader(), buckets, b(0.375), 9)),
        vec!["{job=a}@9=1.5"]
    );
    let series = vec![
        range("b", &[("le", "+Inf")], &[(1, 4.0), (2, 4.0)]),
        range("b", &[("le", "1")], &[(1, 4.0)]),
        range("b", &[("le", "x")], &[(1, 4.0)]),
    ];
    assert_eq!(
        shown_range(&histogram_quantile_range(&ar(), &reader(), series, b(0.5))),
        vec!["{} 1=0.5"]
    );
}

// ---------- requests ----------

#[test]
fn timestamps_are_read() {
    let at = |s: &str| parse_timestamp(&ar(), &reader(), s);
    assert_eq!(at("1.5").unwrap(), 1_500_000);
    assert_eq!(at("-2").unwrap(), -2_000_000);
    assert_eq!(at("1e300").unwrap(), i64::MAX);
    assert_eq!(at("2024-05-04T05:20:00Z").unwrap(), 1_714_800_000_000_000);
    let e = at("noon").unwrap_err();
    assert_eq!((e.status, e.message.as_str()), (400, "invalid timestamp: noon"));
}

#[test]
fn durations_are_read() {
    let us = |s: &str| parse_duration_us(&ar(), &reader(), s);
    assert_eq!(us("15").unwrap(), 15_000_000);
    assert_eq!(us("0.5s").unwrap(), 500_000);
    assert_eq!(us(" 5m ").unwrap(), 300_000_000);
    assert_eq!(us("2h").unwrap(), 7_200_000_000);
    assert_eq!(us("1d").unwrap(), 86_400_000_000);
    let fault = |s: &str| us(s).unwrap_err().message;
    assert_eq!(fault(" "), "empty duration");
    assert_eq!(fault("xm"), "invalid duration: xm");
    assert_eq!(fault("5y"), "invalid duration unit: 5y");
    assert_eq!(fault("5\u{b5}"), "invalid duration unit: 5\u{b5}");
}

#[test]
fn queries_are_read() {
    let params = |q: &str, time: Option<&str>| QueryParams {
        query: q.to_string(),
        time: time.map(str::to_string),
    };
    let at = |p: QueryParams| read_instant(&ar(), &reader(), &p, 77).map(|r| r.time_us);
    assert_eq!(at(params("up", None)).unwrap(), 77);
    assert_eq!(at(params("up", Some("2"))).unwrap(), 2_000_000);
    assert_eq!(at(params("up{", Some("x"))).unwrap_err().message, "invalid timestamp: x");
    assert!(at(params("up{", None)).unwrap_err().message.starts_with("PromQL parse: "));
    let window = |q: &str, start: &str, end: &str, step: &str| {
        let p = QueryRangeParams {
            query: q.to_string(),
            start: start.to_string(),
            end: end.to_string(),
            step: step.to_string(),
        };
        read_range(&ar(), &reader(), &p).map(|r| (r.start_us, r.end_us, r.step_us))
    };
    assert_eq!(window("up", "1", "2", "1m").unwrap(), (1_000_000, 2_000_000, 60_000_000));
    let fault = |q: &str, start: &str, end: &str, step: &str| {
        window(q, start, end, step).unwrap_err().message
    };
    assert_eq!(fault("up", "a", "b", "0"), "invalid timestamp: a");
    assert_eq!(fault("up", "1", "b", "0"), "invalid timestamp: b");
    assert_eq!(fault("up", "1", "2", "0"), "step must be positive");
    assert_eq!(fault("up", "1", "2", "-1s"), "step must be positive");
    assert!(fault("up{", "1", "2", "1").starts_with("PromQL parse: "));
}

// ---------- answers ----------

#[test]
fn vectors_are_answered() {
    let points = vec![point("m", &[("job", "a")], 1_500_000, 2.0), point("", &[], -1, f64::INFINITY)];
    assert_eq!(
        value(&success_vector(instant_points_to_json(points))),
        parsed(
            "{\"status\":\"success\",\"data\":{\"resultType\":\"vector\",\"result\":[\
             {\"metric\":{\"__name__\":\"m\",\"job\":\"a\"},\"value\":[1.5,\"2\"]},\
             {\"metric\":{},\"value\":[-0.000001,\"inf\"]}]}}"
        )
    );
}

#[test]
fn matrices_are_answered() {
    let series = vec![range("m", &[("__name__", "own")], &[(0, 0.1), (1_000_000, -1.0)])];
    assert_eq!(
        value(&success_matrix(range_points_to_json(series))),
        parsed(
            "{\"status\":\"success\",\"data\":{\"resultType\":\"matrix\",\"result\":[\
             {\"metric\":{\"__name__\":\"own\"},\"values\":[[0.0,\"0.1\"],[1.0,\"-1\"]]}]}}"
        )
    );
}

#[test]
fn errors_are_answered() {
    assert_eq!(
        value(&error_body(&PromError::internal("gone".to_string()))),
        parsed("{\"status\":\"error\",\"errorType\":\"internal\",\"error\":\"gone\"}")
    );
    assert_eq!(PromError::internal(String::new()).status, 500);
    assert_eq!(
        value(&error_body(&PromError::bad_data("odd".to_string()))),
        parsed("{\"status\":\"error\",\"errorType\":\"bad_data\",\"error\":\"odd\"}")
    );
}

#[test]
fn label_names_and_values_are_answered() {
    let rows = || vec![Some("job".to_string()), None, Some("az".to_string()), Some("job".to_string())];
    assert_eq!(label_names(rows()), vec!["__name__", "az", "job"]);
    assert_eq!(label_values(rows()), vec!["job", "az", "job"]);
    assert_eq!(
        value(&names_body(label_names(rows()))),
        parsed("{\"status\":\"success\",\"data\":[\"__name__\",\"az\",\"job\"]}")
    );
}

#[test]
fn matches_are_picked_from_the_query_string() {
    assert_eq!(
        parse_series_matches("match[]=up&start=1&match%5B%5D=m%7Ba%3D%22x+y%22%7D&match=z"),
        vec!["up", "m{a=\"x y\"}"]
    );
    assert!(parse_series_matches("").is_empty());
}

#[test]
fn series_are_listed_once() {
    let id = |name: &str, pairs: &[(&str, &str)]| SeriesId {
        metric_name: name.to_string(),
        labels: labels(pairs),
    };
    let mut list = SeriesList::new();
    list.add_rows(
        &selector("m{job=~\"a|b\"}"),
        vec![id("m", &[("job", "b")]), id("m", &[("job", "c")]), id("m", &[("job", "a")])],
    );
    list.add_rows(&selector("m"), vec![id("m", &[("job", "a")]), id("m", &[])]);
    assert_eq!(
        value(&series_body(list.into_series())),
        parsed(
            "{\"status\":\"success\",\"data\":[{\"__name__\":\"m\",\"job\":\"b\"},\
             {\"__name__\":\"m\",\"job\":\"a\"},{\"__name__\":\"m\"}]}"
        )
    );
}
