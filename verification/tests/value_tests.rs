use log_reduce::event::LogEvent;
use log_reduce::lookup::Lookup;
use log_reduce::value::{value_eq, Value};

fn bytes(s: &str) -> Value {
    Value::Bytes(s.as_bytes().to_vec())
}

#[test]
fn insert_and_get_nested() {
    let mut log = LogEvent::new();
    log.insert(&Lookup::from_str("a.b.c").unwrap(), Value::Integer(5)).unwrap();
    log.insert(&Lookup::from_str("a.array[0]").unwrap(), Value::Null).unwrap();
    log.insert(&Lookup::from_str("a.array[1]").unwrap(), Value::Integer(3)).unwrap();

    let got = log.get(&Lookup::from_str("a.b.c").unwrap()).unwrap();
    assert!(value_eq(&got, &Value::Integer(5)));
    let got = log.get(&Lookup::from_str("a.array[1]").unwrap()).unwrap();
    assert!(value_eq(&got, &Value::Integer(3)));
    assert!(log.get(&Lookup::from_str("a.missing").unwrap()).is_none());
}

#[test]
fn insert_type_mismatch_is_reported() {
    let mut log = LogEvent::new();
    log.insert(&Lookup::from_str("a").unwrap(), Value::Integer(1)).unwrap();
    // descending through a scalar is refused and changes nothing
    let refused = log.insert(&Lookup::from_str("a.b").unwrap(), Value::Integer(2));
    assert_eq!(refused, Err(log_reduce::event::EventError::TypeMismatch));
    let got = log.get(&Lookup::from_str("a").unwrap()).unwrap();
    assert!(value_eq(&got, &Value::Integer(1)));
}

#[test]
fn sequences_grow_append_only() {
    let mut log = LogEvent::new();
    log.insert(&Lookup::from_str("xs[0]").unwrap(), Value::Integer(1)).unwrap();
    log.insert(&Lookup::from_str("xs[1]").unwrap(), Value::Integer(2)).unwrap();
    // a sparse write past the end is refused
    let refused = log.insert(&Lookup::from_str("xs[5]").unwrap(), Value::Integer(9));
    assert!(refused.is_err());
    let got = log.get(&Lookup::from_str("xs[1]").unwrap()).unwrap();
    assert!(value_eq(&got, &Value::Integer(2)));
}

#[test]
fn remove_prunes_empty_parents() {
    let mut log = LogEvent::new();
    log.insert(&Lookup::from_str("tags.host").unwrap(), bytes("machine")).unwrap();
    log.insert(&Lookup::from_str("message").unwrap(), bytes("hi")).unwrap();
    let removed = log.remove(&Lookup::from_str("tags.host").unwrap(), true).unwrap();
    assert!(value_eq(&removed, &bytes("machine")));
    // the now-empty tags map was pruned away
    assert!(log.get(&Lookup::from_str("tags").unwrap()).is_none());
    assert!(log.get(&Lookup::from_str("message").unwrap()).is_some());
}

#[test]
fn float_values_compare_bitwise() {
    let a = Value::Float((1.5f64).to_bits());
    let b = Value::Float((1.5f64).to_bits());
    let c = Value::Float((-1.5f64).to_bits());
    assert!(value_eq(&a, &b));
    assert!(!value_eq(&a, &c));
}
