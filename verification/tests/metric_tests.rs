use chrono::TimeZone;
use log_reduce::lookup::Lookup;
use log_reduce::metric::{
    Metric, MetricKind, MetricToLog, MetricToLogConfig, MetricValue, StatisticKind,
};
use log_reduce::value::{value_eq, Value};

fn do_transform(metric: Metric) -> Option<log_reduce::event::LogEvent> {
    let transformer = MetricToLog::new(Some(Lookup::from("host")));
    transformer.transform_at(metric, now_nanos())
}

fn now_nanos() -> i64 {
    chrono::Utc::now().timestamp_nanos_opt().unwrap_or(0)
}

fn ts() -> i64 {
    chrono::Utc
        .with_ymd_and_hms(2018, 11, 14, 8, 9, 10)
        .unwrap()
        .timestamp_nanos_opt()
        .unwrap()
        + 11
}

fn tags() -> Vec<(String, String)> {
    vec![
        ("host".to_owned(), "localhost".to_owned()),
        ("some_tag".to_owned(), "some_value".to_owned()),
    ]
}

fn bytes(s: &str) -> Value {
    Value::Bytes(s.as_bytes().to_vec())
}

fn float(v: f64) -> Value {
    Value::Float(v.to_bits())
}

fn assert_pairs(collected: &[(String, Value)], expected: &[(&str, Value)]) {
    let keys: Vec<&str> = collected.iter().map(|p| p.0.as_str()).collect();
    let want: Vec<&str> = expected.iter().map(|p| p.0).collect();
    assert_eq!(keys, want);
    for (got, want) in collected.iter().zip(expected.iter()) {
        assert!(value_eq(&got.1, &want.1), "value under {} differs", want.0);
    }
}

#[test]
fn metric_to_log_generate_config() {
    let config = MetricToLogConfig::generate_config();
    config.build();
}

#[test]
fn transform_counter() {
    let counter = Metric {
        name: "counter".into(),
        namespace: None,
        timestamp: Some(ts()),
        tags: Some(tags()),
        kind: MetricKind::Absolute,
        value: MetricValue::Counter { value: (1.0f64).to_bits() },
    };

    let log = do_transform(counter).unwrap();
    let collected = log.pairs();

    assert_pairs(
        &collected,
        &[
            ("counter.value", float(1.0)),
            ("host", bytes("localhost")),
            ("kind", bytes("absolute")),
            ("name", bytes("counter")),
            ("tags.some_tag", bytes("some_value")),
            ("timestamp", Value::Timestamp(ts())),
        ],
    );
}

#[test]
fn transform_gauge() {
    let gauge = Metric {
        name: "gauge".into(),
        namespace: None,
        timestamp: Some(ts()),
        tags: None,
        kind: MetricKind::Absolute,
        value: MetricValue::Gauge { value: (1.0f64).to_bits() },
    };

    let log = do_transform(gauge).unwrap();
    let collected = log.pairs();

    assert_pairs(
        &collected,
        &[
            ("gauge.value", float(1.0)),
            ("kind", bytes("absolute")),
            ("name", bytes("gauge")),
            ("timestamp", Value::Timestamp(ts())),
        ],
    );
}

#[test]
fn transform_set() {
    let set = Metric {
        name: "set".into(),
        namespace: None,
        timestamp: Some(ts()),
        tags: None,
        kind: MetricKind::Absolute,
        value: MetricValue::Uniques { values: vec!["one".into(), "two".into()] },
    };

    let log = do_transform(set).unwrap();
    let collected = log.pairs();

    assert_pairs(
        &collected,
        &[
            ("kind", bytes("absolute")),
            ("name", bytes("set")),
            ("set.values[0]", bytes("one")),
            ("set.values[1]", bytes("two")),
            ("timestamp", Value::Timestamp(ts())),
        ],
    );
}

#[test]
fn transform_distribution() {
    let distro = Metric {
        name: "distro".into(),
        namespace: None,
        timestamp: Some(ts()),
        tags: None,
        kind: MetricKind::Absolute,
        value: MetricValue::Distribution {
            values: vec![(1.0f64).to_bits(), (2.0f64).to_bits()],
            sample_rates: vec![10, 20],
            statistic: StatisticKind::Histogram,
        },
    };

    let log = do_transform(distro).unwrap();
    let collected = log.pairs();

    assert_pairs(
        &collected,
        &[
            ("distribution.sample_rates[0]", Value::Integer(10)),
            ("distribution.sample_rates[1]", Value::Integer(20)),
            ("distribution.statistic", bytes("histogram")),
            ("distribution.values[0]", float(1.0)),
            ("distribution.values[1]", float(2.0)),
            ("kind", bytes("absolute")),
            ("name", bytes("distro")),
            ("timestamp", Value::Timestamp(ts())),
        ],
    );
}

#[test]
fn transform_histogram() {
    let histo = Metric {
        name: "histo".into(),
        namespace: None,
        timestamp: Some(ts()),
        tags: None,
        kind: MetricKind::Absolute,
        value: MetricValue::AggregatedHistogram {
            buckets: vec![(1.0f64).to_bits(), (2.0f64).to_bits()],
            counts: vec![10, 20],
            count: 30,
            sum: (50.0f64).to_bits(),
        },
    };

    let log = do_transform(histo).unwrap();
    let collected = log.pairs();

    assert_pairs(
        &collected,
        &[
            ("aggregated_histogram.buckets[0]", float(1.0)),
            ("aggregated_histogram.buckets[1]", float(2.0)),
            ("aggregated_histogram.count", Value::Integer(30)),
            ("aggregated_histogram.counts[0]", Value::Integer(10)),
            ("aggregated_histogram.counts[1]", Value::Integer(20)),
            ("aggregated_histogram.sum", float(50.0)),
            ("kind", bytes("absolute")),
            ("name", bytes("histo")),
            ("timestamp", Value::Timestamp(ts())),
        ],
    );
}

#[test]
fn transform_summary() {
    let summary = Metric {
        name: "summary".into(),
        namespace: None,
        timestamp: Some(ts()),
        tags: None,
        kind: MetricKind::Absolute,
        value: MetricValue::AggregatedSummary {
            quantiles: vec![(50.0f64).to_bits(), (90.0f64).to_bits()],
            values: vec![(10.0f64).to_bits(), (20.0f64).to_bits()],
            count: 30,
            sum: (50.0f64).to_bits(),
        },
    };

    let log = do_transform(summary).unwrap();
    let collected = log.pairs();

    assert_pairs(
        &collected,
        &[
            ("aggregated_summary.count", Value::Integer(30)),
            ("aggregated_summary.quantiles[0]", float(50.0)),
            ("aggregated_summary.quantiles[1]", float(90.0)),
            ("aggregated_summary.sum", float(50.0)),
            ("aggregated_summary.values[0]", float(10.0)),
            ("aggregated_summary.values[1]", float(20.0)),
            ("kind", bytes("absolute")),
            ("name", bytes("summary")),
            ("timestamp", Value::Timestamp(ts())),
        ],
    );
}

#[test]
fn missing_timestamp_gets_the_stream_time() {
    let gauge = Metric {
        name: "g".into(),
        namespace: None,
        timestamp: None,
        tags: None,
        kind: MetricKind::Incremental,
        value: MetricValue::Gauge { value: (2.5f64).to_bits() },
    };
    let transformer = MetricToLog::new(None);
    let log = transformer.transform_at(gauge, 12345).unwrap();
    let got = log.get(&Lookup::from("timestamp")).unwrap();
    assert!(value_eq(&got, &Value::Timestamp(12345)));
    let got = log.get(&Lookup::from("kind")).unwrap();
    assert!(value_eq(&got, &bytes("incremental")));
}
