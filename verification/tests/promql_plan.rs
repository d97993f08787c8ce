use skaldberg::prometheus::ast::{parse, Grouping, MatchOp, QueryExpr, Selector};
use skaldberg::prometheus::durations::{
    fits_duration, has_oversized_duration, shorten_durations,
};
use skaldberg::prometheus::plan::{
    aggregate_can_push_down, count_of_bits, detect_query_kind, extract_selector, next_step,
    parse_agg_op, parse_bin_op, parse_range_fn_op, pure_selector, scalar_vector_pair, AggOp, BinOp,
    Operand, QueryKind, RangeFnOp, Step,
};
use skaldberg::prometheus::queries::{
    build_range_fn_sql, instant_aggregate_sql, instant_range_fn_sql, instant_selector_sql,
    instant_topk_sql, label_values_sql, range_aggregate_sql, range_topk_sql, scalar_instant_sql,
    scalar_range_sql, selector_sql, series_sql, LABELS_SQL,
};
use skaldberg::prometheus::sql::{
    agg_call_sql, aggregate_group_keys, binop_value_sql, cmp_op_sql, effective_metric_name,
    selector_predicates, sql_escape, LOOKBACK_US,
};

const T: i64 = 1_714_800_000_000_000; // 2024-05-04 05:20:00

fn expr(q: &str) -> QueryExpr {
    parse(q).unwrap()
}

fn with_selector(q: &str, f: impl Fn(&Selector)) {
    let e = expr(q);
    f(extract_selector(&e).unwrap());
}

fn norm(s: &str) -> String {
    s.split_whitespace().collect::<Vec<_>>().join(" ")
}

fn by(labels: &[&str]) -> Grouping {
    Grouping::Include(labels.iter().map(|l| l.to_string()).collect())
}

#[test]
fn selectors_are_parsed() {
    let e = expr("http{job=\"api\", code!=\"500\", path=~\"/a.*\", host!~\"b\"}");
    let sel = match &e {
        QueryExpr::VectorSelector(s) => s,
        other => panic!("{:?}", other),
    };
    assert_eq!(sel.name.as_deref(), Some("http"));
    let seen: Vec<(&str, MatchOp, &str)> =
        sel.matchers.iter().map(|m| (m.name.as_str(), m.op, m.value.as_str())).collect();
    assert_eq!(
        seen,
        vec![
            ("job", MatchOp::Equal, "api"),
            ("code", MatchOp::NotEqual, "500"),
            ("path", MatchOp::Re, "/a.*"),
            ("host", MatchOp::NotRe, "b"),
        ]
    );
}

#[test]
fn durations_that_are_too_long_are_refused() {
    for q in [
        "m offset inf",
        "m offset nan",
        "m OFFSET + Inf",
        "m offset -1e20",
        "m offset 1e400",
        "m[1e30]",
        "m[18446744073709551615]",
        "m[5m:1e30]",
        "m[5m:18446744073709550592]",
        "rate(m{a=\"}\"}[ 1e25 ])",
        "m # m\n offset 1e30",
        "m @ start() offset 1e25",
        "a + on (x) group_left (y) b offset inf",
        "offset offset - inf",
        "and offset inf",
    ] {
        assert!(has_oversized_duration(q), "{}", q);
        let e = parse(q).unwrap_err();
        assert_eq!((e.status, e.error_type), (400, "bad_data"), "{}", q);
        assert_eq!(e.message, "PromQL parse: duration out of range", "{}", q);
    }
    // A query that is wrong in another way is told so.
    for (q, short) in [
        ("m offset inf )", "m offset 1 )"),
        ("m offset inf 5", "m offset 1 5"),
        ("m[1e30] {", "m[1] {"),
        ("m offset nan.5", "m offset 1 .5"),
        ("(m offset 1e30", "(m offset 1"),
        ("m offset 1e30 offset inf offset", "m offset 1 offset 1 offset"),
        ("sum(m) by (a) offset 1e30", "sum(m) by (a) offset 1"),
    ] {
        assert!(has_oversized_duration(q), "{}", q);
        let want = promql_parser::parser::parse(short).unwrap_err();
        let e = parse(q).unwrap_err();
        assert_eq!((e.status, e.error_type), (400, "bad_data"), "{}", q);
        assert_eq!(e.message, format!("PromQL parse: {}", want), "{}", q);
    }
    assert_eq!(
        parse("m offset inf )").unwrap_err().message,
        "PromQL parse: unexpected right parenthesis ')'"
    );
    assert_eq!(
        shorten_durations("m{a=\"offset inf\"}[1e30:5m] offset -inf # 1e30\n + 1e30"),
        "m{a=\"offset inf\"}[ 0x1 :5m] offset - 0x1  # 1e30\n + 1e30"
    );
    for q in [
        "m > 1e30",
        "m offset 5m + inf",
        "m offset 5 + 1e30",
        "m[1e18]",
        "m[18446744073709549568]",
        "m offset 0x7fffffffffffffff",
        "m offset 017",
        "offset + inf",
        "a + on (x) offset + inf",
        "a + on (x) group_left offset - 1e30",
        "m == bool offset + nan",
        "m and offset + inf",
        "sum by (offset) (m) + inf",
        "m{a=\"offset inf\", offset='[1e30]'} * inf",
        "m # offset inf",
        "m{a=\"\\\" offset inf\"}",
    ] {
        assert!(!has_oversized_duration(q), "{}", q);
        assert!(parse(q).is_ok(), "{}: {:?}", q, parse(q));
    }
    // What is no number either way is left to the parser.
    for q in ["m[1e]", "m[09x]", "m[0x]", "m offset 1.2.3", "m[inf]", "m offset"] {
        assert!(!has_oversized_duration(q), "{}", q);
        let want = promql_parser::parser::parse(q).unwrap_err();
        assert_eq!(parse(q).unwrap_err().message, format!("PromQL parse: {}", want));
    }
    assert!(fits_duration(1.8446744073709550e19f64.to_bits()));
    assert!(!fits_duration(1.8446744073709552e19f64.to_bits()));
    assert!(!fits_duration(f64::INFINITY.to_bits()));
    assert!(!fits_duration(f64::NAN.to_bits()));
    assert!(!fits_duration((-1.0f64).to_bits()));
}

#[test]
fn nested_expressions_are_parsed() {
    match expr("sum by (job) (rate(http_total[5m]))") {
        QueryExpr::Aggregate { op, modifier, expr, param } => {
            assert_eq!(op, "sum");
            assert!(param.is_none());
            match modifier {
                Some(Grouping::Include(l)) => assert_eq!(l, vec!["job"]),
                other => panic!("{:?}", other),
            }
            match *expr {
                QueryExpr::Call { func, args } => {
                    assert_eq!(func, "rate");
                    assert_eq!(args.len(), 1);
                    match &args[0] {
                        QueryExpr::MatrixSelector { vs, range_us } => {
                            assert_eq!(vs.name.as_deref(), Some("http_total"));
                            assert_eq!(*range_us, 300_000_000);
                        }
                        other => panic!("{:?}", other),
                    }
                }
                other => panic!("{:?}", other),
            }
        }
        other => panic!("{:?}", other),
    }
    match expr("(a) > bool 2.5") {
        QueryExpr::Binary { op, lhs, rhs, return_bool } => {
            assert_eq!(op, ">");
            assert!(return_bool);
            assert!(matches!(*lhs, QueryExpr::Paren(_)));
            match *rhs {
                QueryExpr::NumberLiteral(bits) => assert_eq!(f64::from_bits(bits), 2.5),
                other => panic!("{:?}", other),
            }
        }
        other => panic!("{:?}", other),
    }
}

#[test]
fn what_does_not_parse_is_bad_data() {
    let e = parse("sum(").unwrap_err();
    assert_eq!(e.status, 400);
    assert_eq!(e.error_type, "bad_data");
    let want = promql_parser::parser::parse("sum(").unwrap_err();
    assert_eq!(e.message, format!("PromQL parse: {}", want));
}

#[test]
fn operators_are_recognised() {
    let bin = ["+", "-", "*", "/", "%", "^", "==", "!=", "<", "<=", ">", ">="];
    let want = [
        BinOp::Add, BinOp::Sub, BinOp::Mul, BinOp::Div, BinOp::Mod, BinOp::Pow, BinOp::Eq,
        BinOp::Ne, BinOp::Lt, BinOp::Le, BinOp::Gt, BinOp::Ge,
    ];
    for (text, op) in bin.iter().zip(want) {
        assert_eq!(parse_bin_op(text), Some(op));
        let e = expr(&format!("a {} b", text));
        match detect_query_kind(&e) {
            Some(QueryKind::Binary { op: seen, .. }) => assert_eq!(seen, op),
            _ => panic!("{} is not an operator", text),
        }
    }
    assert_eq!(parse_bin_op("and"), None);
    for (text, op) in [
        ("sum", AggOp::Sum), ("avg", AggOp::Avg), ("min", AggOp::Min), ("max", AggOp::Max),
        ("count", AggOp::Count),
    ] {
        assert_eq!(parse_agg_op(text), Some(op));
    }
    assert_eq!(parse_agg_op("stddev"), None);
    for (text, op) in [
        ("rate", RangeFnOp::Rate), ("IRATE", RangeFnOp::Irate), ("Increase", RangeFnOp::Increase),
        ("delta", RangeFnOp::Delta),
    ] {
        assert_eq!(parse_range_fn_op(text), Some(op));
    }
    assert_eq!(parse_range_fn_op("deriv"), None);
    assert!(BinOp::Ge.is_comparison());
    assert!(!BinOp::Pow.is_comparison());
}

#[test]
fn counts_are_whole_parts() {
    assert_eq!(count_of_bits(3.9f64.to_bits()), 3);
    assert_eq!(count_of_bits(0.5f64.to_bits()), 0);
    assert_eq!(count_of_bits((-3.0f64).to_bits()), 0);
    assert_eq!(count_of_bits(f64::NAN.to_bits()), 0);
    assert_eq!(count_of_bits(f64::INFINITY.to_bits()), 0);
    assert_eq!(count_of_bits(1e300f64.to_bits()), usize::MAX);
}

#[test]
fn steps_push_down_where_sql_can_decide() {
    let step = |q: &str, f: &dyn Fn(Step)| {
        let e = expr(q);
        f(next_step(&e));
    };
    step("m", &|s| assert!(matches!(s, Step::Selector(_))));
    step("rate(m[1m])", &|s| match s {
        Step::RangeFn { range_us, op, .. } => {
            assert_eq!(range_us, 60_000_000);
            assert_eq!(op, RangeFnOp::Rate);
        }
        _ => panic!("not a range function"),
    });
    step("sum by (job) (m)", &|s| {
        assert!(matches!(s, Step::AggregateSql { op: AggOp::Sum, .. }))
    });
    step("sum((m))", &|s| assert!(matches!(s, Step::AggregateSql { .. })));
    step("sum without (job) (m)", &|s| assert!(matches!(s, Step::AggregatePoints { .. })));
    step("sum(rate(m[1m]))", &|s| assert!(matches!(s, Step::AggregatePoints { .. })));
    step("sum(m{job=~\"a.*\"})", &|s| assert!(matches!(s, Step::AggregatePoints { .. })));
    step("sum({__name__=~\"a.*\"})", &|s| assert!(matches!(s, Step::AggregatePoints { .. })));
    step("topk(3, m)", &|s| assert!(matches!(s, Step::TopKSql { n: 3, top: true, .. })));
    step("topk(1, m{job=~\"a.*\"})", &|s| assert!(matches!(s, Step::TopKPoints { .. })));
    step("bottomk(1, m{job!~\"a.*\"})", &|s| assert!(matches!(s, Step::TopKPoints { .. })));
    step("bottomk(2, rate(m[1m]))", &|s| {
        assert!(matches!(s, Step::TopKPoints { n: 2, top: false, .. }))
    });
    step("histogram_quantile(0.9, rate(b[1m]))", &|s| match s {
        Step::Quantile { quantile, .. } => assert_eq!(f64::from_bits(quantile), 0.9),
        _ => panic!("not a quantile"),
    });
    step("2 * m", &|s| assert!(matches!(s, Step::ScalarSql { scalar_on_left: true, .. })));
    step("(m) / 2", &|s| assert!(matches!(s, Step::ScalarSql { scalar_on_left: false, .. })));
    step("2 * m{job=~\"a\"}", &|s| assert!(matches!(s, Step::ScalarSql { .. })));
    step("2 * {__name__=~\"a.*\"}", &|s| match s {
        Step::Operate { lhs, rhs, .. } => {
            assert!(matches!(lhs, Operand::Scalar(_)));
            assert!(matches!(rhs, Operand::Vector(_)));
        }
        _ => panic!("rows without names cannot be matched by name"),
    });
    step("m * Inf", &|s| match s {
        Step::Operate { lhs, rhs, .. } => {
            assert!(matches!(lhs, Operand::Vector(_)));
            assert!(matches!(rhs, Operand::Scalar(_)));
        }
        _ => panic!("an infinite scalar went to SQL"),
    });
    step("a / b", &|s| assert!(matches!(s, Step::Operate { .. })));
    step("stddev(m)", &|s| assert!(matches!(s, Step::Selector(_))));
    step("abs(m)", &|s| assert!(matches!(s, Step::Selector(_))));
    step("1", &|s| assert!(matches!(s, Step::Nothing)));
}

#[test]
fn helpers_of_the_plan() {
    let (a, b) = (expr("m"), expr("2"));
    assert!(pure_selector(&a).is_some());
    assert!(pure_selector(&b).is_none());
    assert!(scalar_vector_pair(&a, &a).is_none());
    let (s, _, left) = scalar_vector_pair(&a, &b).unwrap();
    assert_eq!((f64::from_bits(s), left), (2.0, false));
    assert!(aggregate_can_push_down(None));
    assert!(aggregate_can_push_down(Some(&by(&["a"]))));
    assert!(!aggregate_can_push_down(Some(&Grouping::Exclude(vec![]))));
    assert!(aggregate_group_keys(None).is_empty());
    assert_eq!(aggregate_group_keys(Some(&by(&["a", "b"]))), vec!["a", "b"]);
}

#[test]
fn matchers_become_conditions() {
    with_selector("m{a=\"x\", b!=\"y\", c=~\"z\", d!~\"z\"}", |s| {
        assert_eq!(
            selector_predicates(s),
            vec![
                "s.metric_name = 'm'",
                "element_at(s.labels, 'a')[1] = 'x'",
                "COALESCE(element_at(s.labels, 'b')[1], '') != 'y'",
            ]
        )
    });
    with_selector("{__name__=\"it's\", a=\"o'x\"}", |s| {
        assert_eq!(effective_metric_name(s).map(String::as_str), Some("it's"));
        assert_eq!(
            selector_predicates(s),
            vec!["s.metric_name = 'it''s'", "element_at(s.labels, 'a')[1] = 'o''x'"]
        )
    });
    with_selector("{a=\"x\"}", |s| assert!(effective_metric_name(s).is_none()));
    with_selector("{__name__!=\"it's\", __name__=~\"i.*\", a=\"x\"}", |s| {
        assert_eq!(
            selector_predicates(s),
            vec!["s.metric_name != 'it''s'", "element_at(s.labels, 'a')[1] = 'x'"]
        )
    });
    with_selector("{a=\"x\", __name__=\"m\", __name__=\"n\"}", |s| {
        assert_eq!(
            selector_predicates(s),
            vec![
                "s.metric_name = 'm'",
                "element_at(s.labels, 'a')[1] = 'x'",
                "s.metric_name = 'n'",
            ]
        )
    });
    assert_eq!(sql_escape("a''b"), "a''''b");
}

const WINDOW: &str = "sa.timestamp BETWEEN TIMESTAMP '2024-05-04 05:15:00.000000' AND TIMESTAMP \
                      '2024-05-04 05:20:00.000000'";
const JOINED: &str = "FROM iceberg.skaldberg.samples sa JOIN iceberg.skaldberg.series s ON \
                      sa.series_id = s.series_id";

#[test]
fn selector_statement() {
    with_selector("m", |s| {
        assert_eq!(
            norm(&instant_selector_sql(s, T)),
            format!(
                "SELECT s.metric_name, s.labels, sa.timestamp, sa.value {} WHERE s.metric_name = \
                 'm' AND {} ORDER BY s.metric_name, sa.timestamp",
                JOINED, WINDOW
            )
        );
        assert_eq!(selector_sql(s, T - LOOKBACK_US, T), instant_selector_sql(s, T));
    });
}

#[test]
fn range_function_statements() {
    let base = format!(
        "WITH base AS ( SELECT sa.series_id, CAST(sa.timestamp AS BIGINT) AS ts_us, sa.value + 0.0 \
         AS value {} WHERE x ),",
        JOINED
    );
    let totals = |value: &str| {
        format!(
            "{} adjusted AS ( SELECT series_id, ts_us, value, LAG(value) OVER w AS prev_v FROM base \
             WINDOW w AS (PARTITION BY series_id ORDER BY ts_us) ), agg AS ( SELECT series_id, \
             SUM(CASE WHEN prev_v IS NULL THEN CAST(0.0 AS DOUBLE) WHEN value >= prev_v THEN value \
             - prev_v ELSE value END) AS total_delta, MAX(ts_us) AS last_ts_us, MIN(ts_us) AS \
             first_ts_us, COUNT(*) AS n FROM adjusted GROUP BY series_id ) SELECT s.metric_name, \
             s.labels, ({}) AS v FROM agg a JOIN iceberg.skaldberg.series s ON a.series_id = \
             s.series_id WHERE a.n >= 2 AND a.last_ts_us > a.first_ts_us",
            base, value
        )
    };
    let sql = |op: RangeFnOp| norm(&build_range_fn_sql(op, "WHERE x"));
    assert_eq!(
        sql(RangeFnOp::Rate),
        totals("total_delta * 1000000.0 / (last_ts_us - first_ts_us)")
    );
    assert_eq!(sql(RangeFnOp::Increase), totals("total_delta"));
    assert_eq!(
        sql(RangeFnOp::Irate),
        format!(
            "{} ranked AS ( SELECT series_id, ts_us, value, LAG(value) OVER w AS prev_v, \
             LAG(ts_us) OVER w AS prev_ts_us, ROW_NUMBER() OVER (PARTITION BY series_id ORDER BY \
             ts_us DESC) AS rn_desc, COUNT(*) OVER (PARTITION BY series_id) AS total_n FROM base \
             WINDOW w AS (PARTITION BY series_id ORDER BY ts_us) ) SELECT s.metric_name, s.labels, \
             ((CASE WHEN value >= prev_v THEN value - prev_v ELSE value END) * 1000000.0 / (ts_us - \
             prev_ts_us)) AS v FROM ranked r JOIN iceberg.skaldberg.series s ON r.series_id = \
             s.series_id WHERE r.rn_desc = 1 AND r.total_n >= 2 AND r.ts_us > r.prev_ts_us",
            base
        )
    );
    assert_eq!(
        sql(RangeFnOp::Delta),
        format!(
            "{} ranked AS ( SELECT series_id, ts_us, value, ROW_NUMBER() OVER (PARTITION BY \
             series_id ORDER BY ts_us ASC) AS rn_asc, ROW_NUMBER() OVER (PARTITION BY series_id \
             ORDER BY ts_us DESC) AS rn_desc, COUNT(*) OVER (PARTITION BY series_id) AS total_n \
             FROM base ), endpoints AS ( SELECT series_id, ts_us AS first_ts_us, value AS first_v, \
             total_n FROM ranked WHERE rn_asc = 1 ), last_v AS ( SELECT series_id, ts_us AS \
             last_ts_us, value AS last_val FROM ranked WHERE rn_desc = 1 ) SELECT s.metric_name, \
             s.labels, (l.last_val - e.first_v) AS v FROM endpoints e JOIN last_v l ON \
             e.series_id = l.series_id JOIN iceberg.skaldberg.series s ON e.series_id = \
             s.series_id WHERE e.total_n >= 2 AND l.last_ts_us > e.first_ts_us",
            base
        )
    );
    with_selector("m", |s| {
        assert_eq!(
            instant_range_fn_sql(s, 300_000_000, RangeFnOp::Rate, T),
            build_range_fn_sql(
                RangeFnOp::Rate,
                &format!("WHERE s.metric_name = 'm' AND {}", WINDOW)
            )
        )
    });
}

#[test]
fn aggregation_statements() {
    with_selector("m", |s| {
        let latest = format!(
            "WITH ws AS ( SELECT sa.series_id, sa.value, sa.timestamp, ROW_NUMBER() OVER (PARTITION \
             BY sa.series_id ORDER BY sa.timestamp DESC) AS rn {} WHERE s.metric_name = 'm' AND {} \
             ) SELECT",
            JOINED, WINDOW
        );
        let joined = "AS agg_v FROM ws JOIN iceberg.skaldberg.series s ON ws.series_id = \
                      s.series_id WHERE ws.rn = 1";
        assert_eq!(
            norm(&instant_aggregate_sql(s, AggOp::Sum, None, T)),
            format!("{} SUM(ws.value) {}", latest, joined)
        );
        assert_eq!(
            norm(&instant_aggregate_sql(s, AggOp::Count, Some(&by(&["a", "b"])), T)),
            format!(
                "{} element_at(s.labels, 'a')[1] AS lbl_0, element_at(s.labels, 'b')[1] AS lbl_1, \
                 CAST(COUNT(*) AS DOUBLE) {} GROUP BY element_at(s.labels, 'a')[1], \
                 element_at(s.labels, 'b')[1]",
                latest, joined
            )
        );
        assert_eq!(
            norm(&range_aggregate_sql(s, AggOp::Max, Some(&by(&["a"])), T - LOOKBACK_US, T)),
            format!(
                "SELECT sa.timestamp, element_at(s.labels, 'a')[1] AS lbl_0, MAX(sa.value) AS agg_v \
                 {} WHERE s.metric_name = 'm' AND {} GROUP BY sa.timestamp, element_at(s.labels, \
                 'a')[1] ORDER BY element_at(s.labels, 'a')[1], sa.timestamp",
                JOINED, WINDOW
            )
        );
    });
    assert_eq!(agg_call_sql(AggOp::Avg, "v"), "AVG(v)");
    assert_eq!(agg_call_sql(AggOp::Min, "v"), "MIN(v)");
}

#[test]
fn ranking_statements() {
    with_selector("m", |s| {
        assert_eq!(
            norm(&instant_topk_sql(s, 3, true, Some(&by(&["a"])), T).unwrap()),
            format!(
                "WITH latest AS ( SELECT sa.series_id, sa.value, ROW_NUMBER() OVER (PARTITION BY \
                 sa.series_id ORDER BY sa.timestamp DESC) AS rn {} WHERE s.metric_name = 'm' AND {} \
                 ), ranked AS ( SELECT l.series_id, l.value, ROW_NUMBER() OVER (PARTITION BY \
                 element_at(s.labels, 'a')[1] ORDER BY l.value DESC) AS rnk FROM latest l JOIN \
                 iceberg.skaldberg.series s ON l.series_id = s.series_id WHERE l.rn = 1 ) SELECT \
                 s.metric_name, s.labels, rk.value FROM ranked rk JOIN iceberg.skaldberg.series s \
                 ON rk.series_id = s.series_id WHERE rk.rnk <= 3",
                JOINED, WINDOW
            )
        );
        assert!(instant_topk_sql(s, 2, false, None, T).unwrap().contains("(ORDER BY l.value ASC)"));
        assert!(instant_topk_sql(s, 0, true, None, T).is_none());
        assert_eq!(
            norm(&range_topk_sql(s, 1, false, None, T - LOOKBACK_US, T).unwrap()),
            format!(
                "WITH ranked AS ( SELECT sa.series_id, sa.timestamp, sa.value, ROW_NUMBER() OVER \
                 (PARTITION BY sa.timestamp ORDER BY sa.value ASC) AS rnk {} WHERE s.metric_name = \
                 'm' AND {} ) SELECT s.metric_name, s.labels, rk.timestamp, rk.value FROM ranked rk \
                 JOIN iceberg.skaldberg.series s ON rk.series_id = s.series_id WHERE rk.rnk <= 1 \
                 ORDER BY s.metric_name, rk.timestamp",
                JOINED, WINDOW
            )
        );
        assert!(range_topk_sql(s, 0, true, None, 0, T).is_none());
    });
}

#[test]
fn scalar_statements() {
    let two = "CAST(2.0 AS DOUBLE)";
    with_selector("m", |s| {
        let latest = format!(
            "WITH latest AS ( SELECT sa.series_id, sa.value, ROW_NUMBER() OVER (PARTITION BY \
             sa.series_id ORDER BY sa.timestamp DESC) AS rn {} WHERE s.metric_name = 'm' AND {} ) \
             SELECT",
            JOINED, WINDOW
        );
        let joined = "AS value FROM latest l JOIN iceberg.skaldberg.series s ON l.series_id = \
                      s.series_id WHERE l.rn = 1";
        assert_eq!(
            norm(&scalar_instant_sql(s, two, BinOp::Mul, false, true, T)),
            format!(
                "{} '' AS metric_name, s.labels, (({}) * (l.value)) {}",
                latest, two, joined
            )
        );
        assert_eq!(
            norm(&scalar_instant_sql(s, two, BinOp::Gt, false, false, T)),
            format!(
                "{} s.metric_name AS metric_name, s.labels, (l.value) {} AND (l.value > {})",
                latest, joined, two
            )
        );
        assert_eq!(
            norm(&scalar_range_sql(s, two, BinOp::Ne, true, false, T - LOOKBACK_US, T)),
            format!(
                "SELECT '' AS m_name, s.labels, sa.timestamp, (CAST(CASE WHEN sa.value <> {} THEN \
                 1.0 ELSE 0.0 END AS DOUBLE)) AS value {} WHERE s.metric_name = 'm' AND {} ORDER BY \
                 s.metric_name, sa.timestamp",
                two, JOINED, WINDOW
            )
        );
    });
    assert_eq!(binop_value_sql(BinOp::Pow, "a", "b", false), "power((a), (b))");
    assert_eq!(binop_value_sql(BinOp::Mod, "a", "b", false), "(a) % (b)");
    assert_eq!(binop_value_sql(BinOp::Eq, "a", "b", false), "CAST(0.0 AS DOUBLE)");
    assert_eq!(cmp_op_sql(BinOp::Le), "<=");
}

#[test]
fn catalogue_statements() {
    assert_eq!(
        LABELS_SQL,
        "SELECT DISTINCT k FROM (SELECT unnest(map_keys(s.labels)) AS k FROM \
         iceberg.skaldberg.series s) ORDER BY k"
    );
    assert_eq!(
        label_values_sql("__name__"),
        "SELECT DISTINCT metric_name AS v FROM iceberg.skaldberg.series ORDER BY v"
    );
    assert_eq!(
        label_values_sql("o'x"),
        "SELECT DISTINCT element_at(labels, 'o''x')[1] AS v FROM iceberg.skaldberg.series WHERE \
         element_at(labels, 'o''x')[1] IS NOT NULL ORDER BY v"
    );
    with_selector("m{a=\"x\"}", |s| {
        assert_eq!(
            series_sql(s),
            "SELECT s.metric_name, s.labels FROM iceberg.skaldberg.series s WHERE s.metric_name = \
             'm' AND element_at(s.labels, 'a')[1] = 'x'"
        )
    });
    with_selector("{a=~\"x\"}", |s| {
        assert_eq!(
            series_sql(s),
            "SELECT s.metric_name, s.labels FROM iceberg.skaldberg.series s"
        )
    });
}
