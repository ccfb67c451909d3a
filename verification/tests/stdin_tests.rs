use log_reduce::event::Event;
use log_reduce::lookup::Lookup;
use log_reduce::stdin::{create_event, resolve_host_key, StdinConfig};
use log_reduce::value::{value_eq, Value};

#[test]
fn stdin_generate_config() {
    let config = StdinConfig::default();
    assert_eq!(config.max_length, 102400);
    assert!(config.host_key.is_none());
}

#[test]
fn stdin_create_event() {
    let line = "hello world".as_bytes().to_vec();
    let host_key = Lookup::from("host");
    let hostname = Some("Some.Machine".to_string());

    let event = create_event(line, host_key, hostname, 7);
    let log = match event {
        Event::Log(log) => log,
        Event::Metric(_) => panic!("a read line is a log"),
    };

    let got = log.get(&Lookup::from("host")).unwrap();
    assert!(value_eq(&got, &Value::Bytes("Some.Machine".as_bytes().to_vec())));
    let got = log.get(&Lookup::from("message")).unwrap();
    assert!(value_eq(&got, &Value::Bytes("hello world".as_bytes().to_vec())));
    let got = log.get(&Lookup::from("source_type")).unwrap();
    assert!(value_eq(&got, &Value::Bytes("stdin".as_bytes().to_vec())));
    let got = log.get(&Lookup::from("timestamp")).unwrap();
    assert!(value_eq(&got, &Value::Timestamp(7)));
}

#[test]
fn host_key_defaults() {
    assert_eq!(resolve_host_key(None).render(), "host");
    assert_eq!(
        resolve_host_key(Some(Lookup::from_str("machine.name").unwrap())).render(),
        "machine.name"
    );
}
