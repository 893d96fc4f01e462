use telemetry_core::decode::{parse_groups, parse_prometheus_text, ParseErrorKind, ParsePrometheusText};
use telemetry_core::value::Value;

fn s(x: &str) -> String {
    String::from(x)
}

fn record(fields: Vec<(&str, Value)>) -> Value {
    Value::Object(fields.into_iter().map(|(k, v)| (s(k), v)).collect())
}

fn labels(pairs: Vec<(&str, &str)>) -> Value {
    Value::Object(pairs.into_iter().map(|(k, v)| (s(k), Value::Bytes(s(v)))).collect())
}

#[test]
fn no_labels_untyped_valid() {
    let r = parse_prometheus_text(b"metric_without_timestamp_and_labels 12.47").unwrap();
    let expected = Value::Array(vec![record(vec![
        ("type", Value::Bytes(s("untyped"))),
        ("name", Value::Bytes(s("metric_without_timestamp_and_labels"))),
        ("value", Value::Float(s("12.47"))),
        ("labels", labels(vec![])),
    ])]);
    assert_eq!(r, expected);
}

#[test]
fn no_labels_untyped_with_timestamp_valid() {
    let r = parse_prometheus_text(b"metric_with_timestamp_and_no_labels 12.47 1642734998").unwrap();
    let expected = Value::Array(vec![record(vec![
        ("type", Value::Bytes(s("untyped"))),
        ("name", Value::Bytes(s("metric_with_timestamp_and_no_labels"))),
        ("value", Value::Float(s("12.47"))),
        ("labels", labels(vec![])),
        ("timestamp", Value::Integer(1642734998)),
    ])]);
    assert_eq!(r, expected);
}

#[test]
fn labels_untyped_valid() {
    let r = parse_prometheus_text(br#"metric_without_timestamp{foo="bar"} 12.47"#).unwrap();
    let expected = Value::Array(vec![record(vec![
        ("type", Value::Bytes(s("untyped"))),
        ("name", Value::Bytes(s("metric_without_timestamp"))),
        ("value", Value::Float(s("12.47"))),
        ("labels", labels(vec![("foo", "bar")])),
    ])]);
    assert_eq!(r, expected);
}

#[test]
fn labels_untyped_with_timestamp_valid() {
    let r = parse_prometheus_text(br#"metric_without_timestamp{foo="bar"} 12.47 1642734900"#)
        .unwrap();
    let expected = Value::Array(vec![record(vec![
        ("type", Value::Bytes(s("untyped"))),
        ("name", Value::Bytes(s("metric_without_timestamp"))),
        ("value", Value::Float(s("12.47"))),
        ("labels", labels(vec![("foo", "bar")])),
        ("timestamp", Value::Integer(1642734900)),
    ])]);
    assert_eq!(r, expected);
}

#[test]
fn typed_counter_and_gauge() {
    let text = b"# TYPE requests_total counter\nrequests_total{path=\"/\"} 3\n# TYPE temp gauge\ntemp 21.5";
    let r = parse_prometheus_text(text).unwrap();
    let expected = Value::Array(vec![
        record(vec![
            ("type", Value::Bytes(s("counter"))),
            ("name", Value::Bytes(s("requests_total"))),
            ("value", Value::Float(s("3"))),
            ("labels", labels(vec![("path", "/")])),
        ]),
        record(vec![
            ("type", Value::Bytes(s("gauge"))),
            ("name", Value::Bytes(s("temp"))),
            ("value", Value::Float(s("21.5"))),
            ("labels", labels(vec![])),
        ]),
    ]);
    assert_eq!(r, expected);
}

#[test]
fn histogram_buckets_sum_count() {
    let text = b"# TYPE req_seconds histogram\nreq_seconds_bucket{le=\"0.5\"} 1\nreq_seconds_bucket{le=\"+Inf\"} 2\nreq_seconds_sum 3.5\nreq_seconds_count 2";
    let r = parse_prometheus_text(text).unwrap();
    let expected = Value::Array(vec![record(vec![
        ("type", Value::Bytes(s("histogram"))),
        ("name", Value::Bytes(s("req_seconds"))),
        (
            "buckets",
            Value::Array(vec![
                record(vec![
                    ("bucket", Value::Float(s("0.5"))),
                    ("count", Value::Float(s("1"))),
                ]),
                record(vec![
                    ("bucket", Value::Float(s("+Inf"))),
                    ("count", Value::Float(s("2"))),
                ]),
            ]),
        ),
        ("sum", Value::Float(s("3.5"))),
        ("count", Value::Float(s("2"))),
        ("labels", labels(vec![])),
    ])]);
    assert_eq!(r, expected);
}

#[test]
fn summary_quantiles_sum_count() {
    let text = b"# TYPE rpc_seconds summary\nrpc_seconds{quantile=\"0.5\"} 4.2\nrpc_seconds{quantile=\"0.9\"} 8.1\nrpc_seconds_sum 100.5\nrpc_seconds_count 20";
    let r = parse_prometheus_text(text).unwrap();
    let expected = Value::Array(vec![record(vec![
        ("type", Value::Bytes(s("summary"))),
        ("name", Value::Bytes(s("rpc_seconds"))),
        (
            "quantiles",
            Value::Array(vec![
                record(vec![
                    ("quantile", Value::Float(s("0.5"))),
                    ("value", Value::Float(s("4.2"))),
                ]),
                record(vec![
                    ("quantile", Value::Float(s("0.9"))),
                    ("value", Value::Float(s("8.1"))),
                ]),
            ]),
        ),
        ("sum", Value::Float(s("100.5"))),
        ("count", Value::Float(s("20"))),
        ("labels", labels(vec![])),
    ])]);
    assert_eq!(r, expected);
}

#[test]
fn histogram_group_keys_stay_separate() {
    let text = b"# TYPE req histogram\nreq_bucket{le=\"1\",code=\"200\"} 1\nreq_bucket{le=\"1\",code=\"500\"} 2";
    let r = parse_prometheus_text(text).unwrap();
    match r {
        Value::Array(records) => assert_eq!(records.len(), 2),
        _ => panic!("expected an array of records"),
    }
}

#[test]
fn line_without_value_fails() {
    let r = parse_prometheus_text(b"metric_without_any_value");
    let e = r.unwrap_err();
    assert_eq!(e.line, 0);
    assert_eq!(e.kind, ParseErrorKind::InvalidValue);
}

#[test]
fn failure_is_atomic_no_partial_output() {
    // the first line is fine on its own; the bad second line fails the whole
    // decode and no partial array comes back
    let r = parse_prometheus_text(b"good_metric 1\nbad metric line\n");
    let e = r.unwrap_err();
    assert_eq!(e.line, 1);
}

#[test]
fn non_utf8_bytes_fail_through_the_grammar() {
    // lossy decoding turns the invalid byte into a replacement character,
    // which then violates the grammar exactly as malformed text does
    let r = parse_prometheus_text(b"\xff\xfe 12.47");
    let e = r.unwrap_err();
    assert_eq!(e.kind, ParseErrorKind::InvalidName);
    assert_eq!(e.message(), String::from("invalid metric name"));
}

#[test]
fn garbage_value_token_fails() {
    assert!(parse_prometheus_text(b"metric abc").is_err());
    assert!(parse_prometheus_text(b"metric 1.2.3").is_err());
    assert!(parse_prometheus_text(b"metric 12e").is_err());
    assert!(parse_prometheus_text(b"metric NaN").is_ok());
    assert!(parse_prometheus_text(b"metric -Inf").is_ok());
    assert!(parse_prometheus_text(b"metric 1e-3").is_ok());
    assert!(parse_prometheus_text(b"metric .5").is_ok());
}

#[test]
fn bad_timestamp_fails() {
    assert!(parse_prometheus_text(b"metric 1 notatime").is_err());
    assert!(parse_prometheus_text(b"metric 1 -5").is_ok());
}

#[test]
fn duplicate_label_fails() {
    let r = parse_prometheus_text(br#"metric{a="1",a="2"} 5"#);
    assert_eq!(r.unwrap_err().kind, ParseErrorKind::DuplicateLabel);
}

#[test]
fn help_and_comment_lines_are_inert() {
    let text = b"# HELP m something\n# just a comment\nm 1";
    let r = parse_prometheus_text(text).unwrap();
    match r {
        Value::Array(records) => assert_eq!(records.len(), 1),
        _ => panic!("expected an array of records"),
    }
}

#[test]
fn parse_groups_orders_by_encounter() {
    let gs = parse_groups("a 1\nb 2\na 3").unwrap();
    assert_eq!(gs.len(), 3);
    assert_eq!(gs[0].name, s("a"));
    assert_eq!(gs[1].name, s("b"));
    assert_eq!(gs[2].name, s("a"));
}

#[test]
fn function_boundary_declares_itself() {
    let f = ParsePrometheusText;
    assert_eq!(f.identifier(), "parse_prometheus_text");
    let ps = f.parameters();
    assert_eq!(ps.len(), 1);
    assert_eq!(ps[0].keyword, s("value"));
    assert!(ps[0].required);
    let td = f.type_def();
    assert!(td.fallible);
    assert!(td.kind.array.is_some());
    assert_eq!(f.examples().len(), 1);
    let r = f.resolve(b"metric 1").unwrap();
    assert!(matches!(r, Value::Array(_)));
}
