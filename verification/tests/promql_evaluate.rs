use skaldberg::labels::Labels;
use skaldberg::prometheus::ast::{parse, QueryExpr};
use skaldberg::prometheus::decode::{GroupRow, ValueRow};
use skaldberg::prometheus::evaluate::{evaluate_instant, evaluate_range, Rows, Span};
use skaldberg::prometheus::fetch::{
    f64_sql_lit, instant_fetches, instant_in_range, range_fetches, range_in_range, Columns,
    NumberWriter,
};
use skaldberg::prometheus::histogram::NumberReader;
use skaldberg::prometheus::numbers::Arithmetic;
use skaldberg::prometheus::plan::BinOp;
use skaldberg::prometheus::rows::{series_key, InstantPoint};

const T: i64 = 1_714_800_000_000_000;

fn operate(op: BinOp, a: u64, b: u64) -> u64 {
    let (x, y) = (f64::from_bits(a), f64::from_bits(b));
    let r = match op {
        BinOp::Add => x + y,
        BinOp::Sub => x - y,
        BinOp::Mul => x * y,
        BinOp::Div => x / y,
        BinOp::Mod => x % y,
        _ => x.powf(y),
    };
    if r.is_nan() {
        f64::NAN.to_bits()
    } else {
        r.to_bits()
    }
}

fn whole(n: i128) -> u64 {
    (n as f64).to_bits()
}

fn read(s: &str) -> Option<u64> {
    s.parse::<f64>().ok().map(f64::to_bits)
}

fn write(bits: u64) -> String {
    format!("{:?}", f64::from_bits(bits))
}

fn expr(q: &str) -> QueryExpr {
    parse(q).unwrap()
}

fn instant(q: &str, rows: Vec<Rows>) -> Option<Vec<String>> {
    let (ar, reader) = (Arithmetic { operate, whole }, NumberReader { read });
    evaluate_instant(&ar, &reader, &expr(q), T, rows).map(|points| {
        points
            .iter()
            .map(|p| {
                let key = series_key(&p.metric_name, &p.labels);
                format!("{}@{}={}", key, p.ts_us - T, f64::from_bits(p.value))
            })
            .collect()
    })
}

fn ranged(q: &str, rows: Vec<Rows>) -> Option<Vec<String>> {
    let (ar, reader) = (Arithmetic { operate, whole }, NumberReader { read });
    let span = Span { start_us: 0, end_us: 20_000_000, step_us: 10_000_000 };
    evaluate_range(&ar, &reader, &expr(q), span, rows).map(|series| {
        series
            .iter()
            .map(|s| {
                let key = series_key(&s.metric_name, &s.labels);
                let points: Vec<String> = s
                    .points
                    .iter()
                    .map(|(t, v)| format!("{}={}", t / 1_000_000, f64::from_bits(*v)))
                    .collect();
                format!("{} {}", key, points.join(" "))
            })
            .collect()
    })
}

fn columns(q: &str) -> Vec<Columns> {
    let w = NumberWriter { write };
    instant_fetches(&w, &expr(q), T).iter().map(|f| f.columns).collect()
}

fn labels(pairs: &[(&str, &str)]) -> Labels {
    Labels::from_pairs(pairs.iter().map(|(k, v)| (k.to_string(), v.to_string())).collect())
}

fn points(list: &[(&str, &[(&str, &str)], i64, f64)]) -> Rows {
    Rows::Points(
        list.iter()
            .map(|(name, pairs, ts_us, v)| InstantPoint {
                metric_name: name.to_string(),
                labels: labels(pairs),
                ts_us: *ts_us,
                value: v.to_bits(),
            })
            .collect(),
    )
}

fn values(list: &[(&str, &[(&str, &str)], f64)]) -> Rows {
    Rows::Values(
        list.iter()
            .map(|(name, pairs, v)| ValueRow {
                metric_name: name.to_string(),
                labels: labels(pairs),
                value: Some(v.to_bits()),
            })
            .collect(),
    )
}

fn groups(list: &[(i64, &[Option<&str>], f64)]) -> Rows {
    Rows::Groups(
        list.iter()
            .map(|(ts_us, labels, v)| GroupRow {
                ts_us: *ts_us,
                labels: labels.iter().map(|l| l.map(str::to_string)).collect(),
                value: Some(v.to_bits()),
            })
            .collect(),
    )
}

#[test]
fn numbers_are_sql_literals() {
    let w = NumberWriter { write };
    assert_eq!(f64_sql_lit(&w, 300.0f64.to_bits()), "CAST(300.0 AS DOUBLE)");
    assert_eq!(f64_sql_lit(&w, (-0.5f64).to_bits()), "CAST(-0.5 AS DOUBLE)");
}

#[test]
fn statements_come_in_order() {
    assert_eq!(columns("m"), vec![Columns::Samples]);
    assert_eq!(columns("rate(m[1m])"), vec![Columns::Values]);
    assert_eq!(columns("sum by (a, b) (m)"), vec![Columns::Groups(2, T)]);
    assert_eq!(columns("topk(2, m)"), vec![Columns::Latest(T)]);
    assert_eq!(columns("m > 2"), vec![Columns::Latest(T)]);
    assert_eq!(
        columns("sum(rate(a[1m])) / (b + count(c))"),
        vec![Columns::Values, Columns::Samples]
    );
    assert_eq!(
        columns("rate(a[1m]) / count(c)"),
        vec![Columns::Values, Columns::Groups(0, T)]
    );
    assert!(columns("topk(0, m)").is_empty());
    assert!(columns("1").is_empty());
    let w = NumberWriter { write };
    let fetches = range_fetches(&w, &expr("rate(a[1m]) / avg by (j) (b)"), 0, 60_000_000);
    let seen: Vec<Columns> = fetches.iter().map(|f| f.columns).collect();
    assert_eq!(seen, vec![Columns::Samples, Columns::TimedGroups(1)]);
    assert!(fetches[0].sql.contains("TIMESTAMP '1969-12-31 23:59:00.000000'"));
    let fetches = instant_fetches(&w, &expr("2 * m"), T);
    assert!(fetches[0].sql.contains("(CAST(2.0 AS DOUBLE)) * (l.value)"));
}

#[test]
fn windows_that_reach_too_far_back_are_told() {
    assert!(instant_in_range(&expr("m"), T));
    assert!(!instant_in_range(&expr("m"), i64::MIN));
    assert!(!instant_in_range(&expr("sum(rate(m[1m]))"), i64::MIN));
    assert!(instant_in_range(&expr("1"), i64::MIN));
    assert!(!range_in_range(&expr("a / rate(m[1m])"), i64::MIN));
    assert!(range_in_range(&expr("m"), i64::MIN));
}

#[test]
fn instant_queries_are_evaluated() {
    let m = || points(&[("m", &[("j", "a")], T - 5, 1.0), ("m", &[("j", "a")], T - 1, 2.0)]);
    assert_eq!(instant("m", vec![m()]).unwrap(), vec!["m{j=a}@-1=2"]);
    assert_eq!(
        instant("sum(rate(m[1m]))", vec![values(&[("m", &[("j", "a")], 1.5), ("m", &[], 2.0)])])
            .unwrap(),
        vec!["{}@0=3.5"]
    );
    assert_eq!(
        instant("max by (j) (m)", vec![groups(&[(T, &[Some("a")], 4.0), (T, &[None], 1.0)])])
            .unwrap(),
        vec!["{j=a}@0=4", "{}@0=1"]
    );
    assert_eq!(
        instant(
            "topk(1, rate(m[1m]))",
            vec![values(&[("m", &[("j", "a")], 1.5), ("m", &[], 2.0)])]
        )
        .unwrap(),
        vec!["m{}@0=2"]
    );
    assert_eq!(
        instant(
            "topk(5, m{j=~\"a\"})",
            vec![points(&[("m", &[("j", "a")], T, 1.0), ("m", &[("j", "b")], T, 2.0)])]
        )
        .unwrap(),
        vec!["m{j=a}@0=1"]
    );
    // A series that the pattern leaves out takes no place in the ranking.
    assert_eq!(
        instant(
            "topk(1, m{j=~\"a\"})",
            vec![points(&[("m", &[("j", "a")], T, 1.0), ("m", &[("j", "b")], T, 2.0)])]
        )
        .unwrap(),
        vec!["m{j=a}@0=1"]
    );
    assert_eq!(
        instant(
            "2 * m{j!~\"b\"}",
            vec![points(&[("", &[("j", "a")], T, 2.0), ("", &[("j", "b")], T, 4.0)])]
        )
        .unwrap(),
        vec!["{j=a}@0=2"]
    );
    assert_eq!(
        instant(
            "2 * {__name__=~\"m|n\"}",
            vec![points(&[("m", &[("j", "a")], T, 1.0), ("o", &[("j", "b")], T, 2.0)])]
        )
        .unwrap(),
        vec!["{j=a}@0=2"]
    );
    assert_eq!(
        instant(
            "rate({__name__=~\"m|n\"}[1m])",
            vec![values(&[("m", &[], 1.5), ("o", &[], 2.0)])]
        )
        .unwrap(),
        vec!["m{}@0=1.5"]
    );
    assert_eq!(
        instant("rate(m[1m]) / n", vec![values(&[("m", &[], 6.0)]), points(&[("n", &[], T, 4.0)])])
            .unwrap(),
        vec!["{}@0=1.5"]
    );
    assert_eq!(
        instant(
            "histogram_quantile(0.5, b)",
            vec![points(&[("b", &[("le", "1")], T, 4.0), ("b", &[("le", "+Inf")], T, 4.0)])]
        )
        .unwrap(),
        vec!["{}@0=0.5"]
    );
    assert!(instant("1 + 2", vec![]).unwrap().is_empty());
    assert!(instant("topk(0, m)", vec![]).unwrap().is_empty());
}

#[test]
fn range_queries_are_evaluated() {
    let m = || {
        points(&[
            ("m", &[("j", "a")], 0, 0.0),
            ("m", &[("j", "a")], 10_000_000, 10.0),
            ("m", &[("j", "a")], 20_000_000, 30.0),
        ])
    };
    assert_eq!(ranged("m", vec![m()]).unwrap(), vec!["m{j=a} 0=0 10=10 20=30"]);
    assert_eq!(ranged("rate(m[10s])", vec![m()]).unwrap(), vec!["m{j=a} 10=1 20=2"]);
    assert_eq!(
        ranged("sum without (j) (rate(m[10s]))", vec![m()]).unwrap(),
        vec!["{} 10=1 20=2"]
    );
    assert_eq!(
        ranged("min by (j) (m)", vec![groups(&[(0, &[Some("a")], 4.0)])]).unwrap(),
        vec!["{j=a} 0=4"]
    );
    assert_eq!(
        ranged("increase(m[10s]) * irate(m[10s])", vec![m(), m()]).unwrap(),
        vec!["{j=a} 10=10 20=40"]
    );
    assert_eq!(
        ranged(
            "bottomk(1, m{j!~\"b\"})",
            vec![points(&[("m", &[("j", "a")], 0, 5.0), ("m", &[("j", "b")], 0, 1.0)])]
        )
        .unwrap(),
        vec!["m{j=a} 0=5"]
    );
    assert!(ranged("1 + 2", vec![]).unwrap().is_empty());
}

#[test]
fn rows_of_other_columns_give_no_answer() {
    assert!(instant("m", vec![]).is_none());
    assert!(instant("m", vec![values(&[])]).is_none());
    assert!(instant("rate(m[1m])", vec![points(&[])]).is_none());
    assert!(instant("sum by (j) (m)", vec![groups(&[(T, &[], 1.0)])]).is_none());
    assert!(instant("a / b", vec![points(&[])]).is_none());
    assert!(ranged("rate(m[1m])", vec![values(&[])]).is_none());
}
