use log_reduce::fields::all_fields;
use log_reduce::value::{value_eq, Value};

fn collect(fields: &Vec<(String, Value)>) -> Vec<(String, Value)> {
    all_fields(fields)
}

fn assert_pairs(collected: &[(String, Value)], expected: &[(&str, Value)]) {
    assert_eq!(collected.len(), expected.len());
    for (got, want) in collected.iter().zip(expected.iter()) {
        assert_eq!(got.0, want.0);
        assert!(value_eq(&got.1, &want.1), "value under {} differs", want.0);
    }
}

#[test]
fn keys_simple() {
    let mut root = log_reduce::event::LogEvent::new();
    root.insert(&log_reduce::lookup::Lookup::from("field2"), Value::Integer(3)).unwrap();
    root.insert(&log_reduce::lookup::Lookup::from("field1"), Value::Integer(4)).unwrap();
    root.insert(&log_reduce::lookup::Lookup::from("field3"), Value::Integer(5)).unwrap();
    let fields = root.entries();

    let collected = collect(&fields);
    assert_pairs(
        &collected,
        &[
            ("field1", Value::Integer(4)),
            ("field2", Value::Integer(3)),
            ("field3", Value::Integer(5)),
        ],
    );
}

#[test]
fn keys_nested() {
    let mut root = log_reduce::event::LogEvent::new();
    let path = |s: &str| log_reduce::lookup::Lookup::from_str(s).unwrap();
    root.insert(&path("a.b.c"), Value::Integer(5)).unwrap();
    root.insert(&path("a.a"), Value::Integer(4)).unwrap();
    root.insert(&path("a.array[0]"), Value::Null).unwrap();
    root.insert(&path("a.array[1]"), Value::Integer(3)).unwrap();
    root.insert(&path("a.array[2].x"), Value::Integer(1)).unwrap();
    root.insert(&path("a.array[3][0]"), Value::Integer(2)).unwrap();
    let fields = root.entries();

    let collected = collect(&fields);
    assert_pairs(
        &collected,
        &[
            ("a.a", Value::Integer(4)),
            ("a.array[0]", Value::Null),
            ("a.array[1]", Value::Integer(3)),
            ("a.array[2].x", Value::Integer(1)),
            ("a.array[3][0]", Value::Integer(2)),
            ("a.b.c", Value::Integer(5)),
        ],
    );
}

#[test]
fn iterator_yields_in_order_and_ends() {
    let mut root = log_reduce::event::LogEvent::new();
    root.insert(&log_reduce::lookup::Lookup::from("b"), Value::Integer(2)).unwrap();
    root.insert(&log_reduce::lookup::Lookup::from("a"), Value::Integer(1)).unwrap();
    let fields = root.entries();
    let mut iter = log_reduce::fields::FieldsIter::new(&fields);
    let first = iter.next().unwrap();
    assert_eq!(first.0, "a");
    let second = iter.next().unwrap();
    assert_eq!(second.0, "b");
    assert!(iter.next().is_none());
    assert!(iter.next().is_none());
}
