use log_reduce::condition::FieldExists;
use log_reduce::event::{Event, LogEvent};
use log_reduce::lookup::Lookup;
use log_reduce::merge::MergeStrategy;
use log_reduce::reduce::{ConfigError, Reduce, ReduceConfig, StreamInput};
use log_reduce::value::{value_eq, Value};

fn bytes(s: &str) -> Value {
    Value::Bytes(s.as_bytes().to_vec())
}

fn log_with(message: &str, fields: &[(&str, Value)]) -> Event {
    let mut log = LogEvent::new();
    log.insert(&Lookup::from("message"), bytes(message)).unwrap();
    log.insert(&Lookup::from("timestamp"), Value::Timestamp(0)).unwrap();
    for (key, value) in fields {
        log.insert(&Lookup::from(*key), value.clone()).unwrap();
    }
    Event::Log(log)
}

fn ends_on_test_end() -> Option<FieldExists> {
    Some(FieldExists { path: Lookup::from_str("test_end").unwrap() })
}

fn get(out: &Event, key: &str) -> Value {
    match out {
        Event::Log(log) => log.get(&Lookup::from(key)).unwrap(),
        Event::Metric(_) => panic!("the engine emits logs"),
    }
}

fn has(out: &Event, key: &str) -> bool {
    match out {
        Event::Log(log) => log.get(&Lookup::from(key)).is_some(),
        Event::Metric(_) => false,
    }
}

#[test]
fn mod_generate_config() {
    let config: ReduceConfig<FieldExists> = ReduceConfig::default();
    Reduce::new(config).unwrap();
}

#[test]
fn both_boundaries_fail_construction() {
    let mut config: ReduceConfig<FieldExists> = ReduceConfig::default();
    config.ends_when = ends_on_test_end();
    config.starts_when = Some(FieldExists { path: Lookup::from_str("test_start").unwrap() });
    let refused = Reduce::new(config);
    assert!(matches!(refused, Err(ConfigError::InvalidConfiguration)));
}

#[test]
fn reduce_from_condition() {
    let mut config: ReduceConfig<FieldExists> = ReduceConfig::default();
    config.group_by = vec![Lookup::from_str("request_id").unwrap()];
    config.ends_when = ends_on_test_end();
    let mut reduce = Reduce::new(config).unwrap();

    let e_1 = log_with(
        "test message 1",
        &[("counter", Value::Integer(1)), ("request_id", bytes("1"))],
    );
    let e_2 = log_with(
        "test message 2",
        &[("counter", Value::Integer(2)), ("request_id", bytes("2"))],
    );
    let e_3 = log_with(
        "test message 3",
        &[("counter", Value::Integer(3)), ("request_id", bytes("1"))],
    );
    let e_4 = log_with(
        "test message 4",
        &[
            ("counter", Value::Integer(4)),
            ("request_id", bytes("1")),
            ("test_end", bytes("yep")),
        ],
    );
    let e_5 = log_with(
        "test message 5",
        &[
            ("counter", Value::Integer(5)),
            ("request_id", bytes("2")),
            ("extra_field", bytes("value1")),
            ("test_end", bytes("yep")),
        ],
    );

    let mut out: Vec<Event> = Vec::new();
    for e in [e_1, e_2, e_3, e_4, e_5] {
        reduce.transform_one(&mut out, e, 0);
    }

    assert_eq!(out.len(), 2);
    assert!(value_eq(&get(&out[0], "message"), &bytes("test message 1")));
    assert!(value_eq(&get(&out[0], "counter"), &Value::Integer(8)));
    assert!(value_eq(&get(&out[1], "message"), &bytes("test message 2")));
    assert!(value_eq(&get(&out[1], "extra_field"), &bytes("value1")));
    assert!(value_eq(&get(&out[1], "counter"), &Value::Integer(7)));
}

#[test]
fn reduce_merge_strategies() {
    let mut config: ReduceConfig<FieldExists> = ReduceConfig::default();
    config.group_by = vec![Lookup::from_str("request_id").unwrap()];
    config.merge_strategies = vec![
        (Lookup::from_str("foo").unwrap(), MergeStrategy::Concat),
        (Lookup::from_str("bar").unwrap(), MergeStrategy::Array),
        (Lookup::from_str("baz").unwrap(), MergeStrategy::Max),
    ];
    config.ends_when = ends_on_test_end();
    let mut reduce = Reduce::new(config).unwrap();

    let e_1 = log_with(
        "test message 1",
        &[
            ("foo", bytes("first foo")),
            ("bar", bytes("first bar")),
            ("baz", Value::Integer(2)),
            ("request_id", bytes("1")),
        ],
    );
    let e_2 = log_with(
        "test message 2",
        &[
            ("foo", bytes("second foo")),
            ("bar", Value::Integer(2)),
            ("baz", bytes("not number")),
            ("request_id", bytes("1")),
        ],
    );
    let e_3 = log_with(
        "test message 3",
        &[
            ("foo", Value::Integer(10)),
            ("bar", bytes("third bar")),
            ("baz", Value::Integer(3)),
            ("request_id", bytes("1")),
            ("test_end", bytes("yep")),
        ],
    );

    let mut out: Vec<Event> = Vec::new();
    for e in [e_1, e_2, e_3] {
        reduce.transform_one(&mut out, e, 0);
    }

    assert_eq!(out.len(), 1);
    assert!(value_eq(&get(&out[0], "message"), &bytes("test message 1")));
    assert!(value_eq(&get(&out[0], "foo"), &bytes("first foo second foo")));
    assert!(value_eq(
        &get(&out[0], "bar"),
        &Value::Array(vec![bytes("first bar"), Value::Integer(2), bytes("third bar")]),
    ));
    assert!(value_eq(&get(&out[0], "baz"), &Value::Integer(3)));
}

#[test]
fn missing_group_by() {
    let mut config: ReduceConfig<FieldExists> = ReduceConfig::default();
    config.group_by = vec![Lookup::from_str("request_id").unwrap()];
    config.ends_when = ends_on_test_end();
    let mut reduce = Reduce::new(config).unwrap();

    let e_1 = log_with(
        "test message 1",
        &[("counter", Value::Integer(1)), ("request_id", bytes("1"))],
    );
    let e_2 = log_with("test message 2", &[("counter", Value::Integer(2))]);
    let e_3 = log_with(
        "test message 3",
        &[("counter", Value::Integer(3)), ("request_id", bytes("1"))],
    );
    let e_4 = log_with(
        "test message 4",
        &[
            ("counter", Value::Integer(4)),
            ("request_id", bytes("1")),
            ("test_end", bytes("yep")),
        ],
    );
    let e_5 = log_with(
        "test message 5",
        &[
            ("counter", Value::Integer(5)),
            ("extra_field", bytes("value1")),
            ("test_end", bytes("yep")),
        ],
    );

    let mut out: Vec<Event> = Vec::new();
    for e in [e_1, e_2, e_3, e_4, e_5] {
        reduce.transform_one(&mut out, e, 0);
    }

    assert_eq!(out.len(), 2);
    assert!(value_eq(&get(&out[0], "message"), &bytes("test message 1")));
    assert!(value_eq(&get(&out[0], "counter"), &Value::Integer(8)));
    assert!(value_eq(&get(&out[1], "message"), &bytes("test message 2")));
    assert!(value_eq(&get(&out[1], "extra_field"), &bytes("value1")));
    assert!(value_eq(&get(&out[1], "counter"), &Value::Integer(7)));
}

#[test]
fn arrays() {
    let mut config: ReduceConfig<FieldExists> = ReduceConfig::default();
    config.group_by = vec![Lookup::from_str("request_id").unwrap()];
    config.merge_strategies = vec![
        (Lookup::from_str("foo").unwrap(), MergeStrategy::Array),
        (Lookup::from_str("bar").unwrap(), MergeStrategy::Concat),
    ];
    config.ends_when = ends_on_test_end();
    let mut reduce = Reduce::new(config).unwrap();

    let arr = |a: i64, b: i64| Value::Array(vec![Value::Integer(a), Value::Integer(b)]);

    let e_1 = log_with(
        "test message 1",
        &[("foo", arr(1, 3)), ("bar", arr(1, 3)), ("request_id", bytes("1"))],
    );
    let e_2 = log_with(
        "test message 2",
        &[("foo", arr(2, 4)), ("bar", arr(2, 4)), ("request_id", bytes("2"))],
    );
    let e_3 = log_with(
        "test message 3",
        &[("foo", arr(5, 7)), ("bar", arr(5, 7)), ("request_id", bytes("1"))],
    );
    let e_4 = log_with(
        "test message 4",
        &[
            ("foo", bytes("done")),
            ("bar", bytes("done")),
            ("request_id", bytes("1")),
            ("test_end", bytes("yep")),
        ],
    );
    let e_5 = log_with(
        "test message 5",
        &[("foo", arr(6, 8)), ("bar", arr(6, 8)), ("request_id", bytes("2"))],
    );
    let e_6 = log_with(
        "test message 6",
        &[
            ("foo", bytes("done")),
            ("bar", bytes("done")),
            ("request_id", bytes("2")),
            ("test_end", bytes("yep")),
        ],
    );

    let mut out: Vec<Event> = Vec::new();
    for e in [e_1, e_2, e_3, e_4, e_5, e_6] {
        reduce.transform_one(&mut out, e, 0);
    }

    assert_eq!(out.len(), 2);
    assert!(value_eq(
        &get(&out[0], "foo"),
        &Value::Array(vec![arr(1, 3), arr(5, 7), bytes("done")]),
    ));
    assert!(value_eq(
        &get(&out[0], "bar"),
        &Value::Array(vec![
            Value::Integer(1),
            Value::Integer(3),
            Value::Integer(5),
            Value::Integer(7),
            bytes("done"),
        ]),
    ));
    assert!(value_eq(
        &get(&out[1], "foo"),
        &Value::Array(vec![arr(2, 4), arr(6, 8), bytes("done")]),
    ));
    assert!(value_eq(
        &get(&out[1], "bar"),
        &Value::Array(vec![
            Value::Integer(2),
            Value::Integer(4),
            Value::Integer(6),
            Value::Integer(8),
            bytes("done"),
        ]),
    ));
}

#[test]
fn completion_flushes_every_open_bucket_once() {
    let mut config: ReduceConfig<FieldExists> = ReduceConfig::default();
    config.group_by = vec![Lookup::from_str("request_id").unwrap()];
    let mut reduce = Reduce::new(config).unwrap();

    let mut out: Vec<Event> = Vec::new();
    for id in ["1", "2", "3"] {
        let e = log_with("m", &[("request_id", bytes(id)), ("counter", Value::Integer(1))]);
        reduce.transform_one(&mut out, e, 0);
    }
    assert_eq!(out.len(), 0);

    let done = reduce.transform_step(StreamInput::Closed, &mut out, 0);
    assert!(done);
    assert_eq!(out.len(), 3);
    // one event per bucket, in bucket order, none twice
    assert!(value_eq(&get(&out[0], "request_id"), &bytes("1")));
    assert!(value_eq(&get(&out[1], "request_id"), &bytes("2")));
    assert!(value_eq(&get(&out[2], "request_id"), &bytes("3")));

    // draining again flushes nothing: every bucket went exactly once
    let mut out2: Vec<Event> = Vec::new();
    let done = reduce.transform_step(StreamInput::Closed, &mut out2, 0);
    assert!(done);
    assert_eq!(out2.len(), 0);
}

#[test]
fn stale_buckets_flush_on_tick() {
    let mut config: ReduceConfig<FieldExists> = ReduceConfig::default();
    config.group_by = vec![Lookup::from_str("request_id").unwrap()];
    config.expire_after_ms = Some(100);
    let mut reduce = Reduce::new(config).unwrap();

    let mut out: Vec<Event> = Vec::new();
    let e = log_with("m", &[("request_id", bytes("1")), ("counter", Value::Integer(1))]);
    reduce.transform_one(&mut out, e, 1000);
    assert_eq!(out.len(), 0);

    // not yet stale
    let done = reduce.transform_step(StreamInput::Tick, &mut out, 1050);
    assert!(!done);
    assert_eq!(out.len(), 0);

    // stale now
    let done = reduce.transform_step(StreamInput::Tick, &mut out, 1100);
    assert!(!done);
    assert_eq!(out.len(), 1);
    assert!(value_eq(&get(&out[0], "counter"), &Value::Integer(1)));
}

#[test]
fn starts_when_flushes_before_the_trigger() {
    let mut config: ReduceConfig<FieldExists> = ReduceConfig::default();
    config.group_by = vec![Lookup::from_str("request_id").unwrap()];
    config.starts_when = Some(FieldExists { path: Lookup::from_str("test_start").unwrap() });
    let mut reduce = Reduce::new(config).unwrap();

    let mut out: Vec<Event> = Vec::new();
    let e_1 = log_with("m1", &[("request_id", bytes("1")), ("counter", Value::Integer(1))]);
    let e_2 = log_with("m2", &[("request_id", bytes("1")), ("counter", Value::Integer(2))]);
    reduce.transform_one(&mut out, e_1, 0);
    reduce.transform_one(&mut out, e_2, 0);
    assert_eq!(out.len(), 0);

    // the trigger flushes the old bucket without itself
    let e_3 = log_with(
        "m3",
        &[
            ("request_id", bytes("1")),
            ("counter", Value::Integer(10)),
            ("test_start", bytes("yep")),
        ],
    );
    reduce.transform_one(&mut out, e_3, 0);
    assert_eq!(out.len(), 1);
    assert!(value_eq(&get(&out[0], "counter"), &Value::Integer(3)));
    assert!(!has(&out[0], "test_start"));

    // the triggering event seeded the new bucket
    let mut out2: Vec<Event> = Vec::new();
    reduce.transform_step(StreamInput::Closed, &mut out2, 0);
    assert_eq!(out2.len(), 1);
    assert!(value_eq(&get(&out2[0], "counter"), &Value::Integer(10)));
}

#[test]
fn absent_group_key_shares_one_bucket() {
    let mut config: ReduceConfig<FieldExists> = ReduceConfig::default();
    config.group_by = vec![Lookup::from_str("request_id").unwrap()];
    let mut reduce = Reduce::new(config).unwrap();

    let mut out: Vec<Event> = Vec::new();
    let e_1 = log_with("m1", &[("counter", Value::Integer(1))]);
    let e_2 = log_with("m2", &[("counter", Value::Integer(2))]);
    let e_3 = log_with("m3", &[("counter", Value::Integer(4)), ("request_id", bytes("1"))]);
    reduce.transform_one(&mut out, e_1, 0);
    reduce.transform_one(&mut out, e_2, 0);
    reduce.transform_one(&mut out, e_3, 0);
    assert_eq!(out.len(), 0);

    reduce.transform_step(StreamInput::Closed, &mut out, 0);
    // the two absent-key events shared one bucket; the present-value one got its own
    assert_eq!(out.len(), 2);
    assert!(value_eq(&get(&out[0], "counter"), &Value::Integer(3)));
    assert!(value_eq(&get(&out[1], "counter"), &Value::Integer(4)));
}

#[test]
fn float_max_orders_by_value() {
    let mut config: ReduceConfig<FieldExists> = ReduceConfig::default();
    config.merge_strategies = vec![(Lookup::from_str("baz").unwrap(), MergeStrategy::Max)];
    let mut reduce = Reduce::new(config).unwrap();

    let mut out: Vec<Event> = Vec::new();
    for v in [1.5f64, -2.0, 7.25, 3.0] {
        let e = log_with("m", &[("baz", Value::Float(v.to_bits()))]);
        reduce.transform_one(&mut out, e, 0);
    }
    reduce.transform_step(StreamInput::Closed, &mut out, 0);
    assert_eq!(out.len(), 1);
    assert!(value_eq(&get(&out[0], "baz"), &Value::Float((7.25f64).to_bits())));
}
