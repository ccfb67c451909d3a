use log_reduce::condition::{Condition, IsLogConfig};
use log_reduce::event::{Event, LogEvent};
use log_reduce::lookup::Lookup;
use log_reduce::metric::{Metric, MetricKind, MetricValue};
use log_reduce::value::Value;

fn sample_log() -> Event {
    let mut log = LogEvent::new();
    log.insert(
        &Lookup::from("message"),
        Value::Bytes("just a log".as_bytes().to_vec()),
    )
    .unwrap();
    Event::Log(log)
}

#[test]
fn is_log_generate_config() {
    let config = IsLogConfig::default();
    config.build().unwrap();
}

#[test]
fn is_log_basic() {
    let cond = IsLogConfig {}.build().unwrap();

    assert_eq!(cond.check(&sample_log()), true);
    assert_eq!(
        cond.check(&Event::Metric(Metric {
            name: "test metric".to_string(),
            namespace: None,
            timestamp: None,
            tags: None,
            kind: MetricKind::Incremental,
            value: MetricValue::Counter { value: (1.0f64).to_bits() },
        })),
        false
    );
}

#[test]
fn check_with_context_names_the_reason() {
    let cond = IsLogConfig {}.build().unwrap();
    assert!(cond.check_with_context(&sample_log()).is_ok());
    let err = cond
        .check_with_context(&Event::Metric(Metric {
            name: "m".to_string(),
            namespace: None,
            timestamp: None,
            tags: None,
            kind: MetricKind::Absolute,
            value: MetricValue::Gauge { value: 0 },
        }))
        .unwrap_err();
    assert_eq!(err, "event is not a log type");
}
