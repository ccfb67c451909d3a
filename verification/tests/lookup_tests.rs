use log_reduce::lookup::{Lookup, LookupError, Segment};

const SUFFICIENTLY_COMPLEX: &str =
    r#"regular."quoted"."quoted but spaces"."quoted.but.periods".lookup[0].nested_lookup[0][0]"#;

fn sufficiently_decomposed() -> Vec<Segment> {
    vec![
        Segment::field(r#"regular"#),
        Segment::field(r#""quoted""#),
        Segment::field(r#""quoted but spaces""#),
        Segment::field(r#""quoted.but.periods""#),
        Segment::field(r#"lookup"#),
        Segment::index(0),
        Segment::field(r#"nested_lookup"#),
        Segment::index(0),
        Segment::index(0),
    ]
}

#[test]
fn zero_len_not_allowed() {
    let input = "";
    let maybe_lookup = Lookup::from_str(input);
    assert!(maybe_lookup.is_err());
}

#[test]
fn empty_path_error_is_reported() {
    assert_eq!(Lookup::from_str("").unwrap_err(), LookupError::EmptyPath);
    assert_eq!(Lookup::from_str("a..b").unwrap_err(), LookupError::InvalidPath);
    assert_eq!(Lookup::from_str("a[]").unwrap_err(), LookupError::InvalidPath);
    assert_eq!(Lookup::from_str("a[12").unwrap_err(), LookupError::InvalidPath);
    assert_eq!(Lookup::from_str("[0]").unwrap_err(), LookupError::InvalidPath);
    assert_eq!(
        Lookup::from_str("a[99999999999999999999999999]").unwrap_err(),
        LookupError::InvalidPath
    );
}

#[test]
fn we_dont_parse_plain_strings_in_from() {
    let input = "some_key.still_the_same_key.this.is.going.in.via.from.and.should.not.get.parsed";
    let lookup = Lookup::from(input);
    assert_eq!(*lookup.get(0), Segment::field(input));
    assert_eq!(lookup.render(), input);
}

#[test]
fn simple() {
    let input = "some_key";
    let lookup = Lookup::from_str(input).unwrap();
    assert_eq!(*lookup.get(0), Segment::field("some_key"));
    assert_eq!(lookup.render(), input);
}

#[test]
fn push() {
    let input = "some_key";
    let mut lookup = Lookup::from_str(input).unwrap();
    lookup.push(Segment::field(input));
    assert_eq!(*lookup.get(0), Segment::from("some_key"));
    assert_eq!(*lookup.get(1), Segment::from("some_key"));
}

#[test]
fn pop() {
    let input = "some_key";
    let mut lookup = Lookup::from_str(input).unwrap();
    let out = lookup.pop();
    assert_eq!(out, Some(Segment::field("some_key")));
}

#[test]
fn array() {
    let input = "foo[0]";
    let lookup = Lookup::from_str(input).unwrap();
    assert_eq!(*lookup.get(0), Segment::field("foo"));
    assert_eq!(*lookup.get(1), Segment::index(0));
    assert_eq!(lookup.render(), input);
}

#[test]
fn four_flat_segments() {
    let lookup = Lookup::from_str("a.b[0][0]").unwrap();
    assert_eq!(lookup.len(), 4);
    assert_eq!(*lookup.get(0), Segment::field("a"));
    assert_eq!(*lookup.get(1), Segment::field("b"));
    assert_eq!(*lookup.get(2), Segment::index(0));
    assert_eq!(*lookup.get(3), Segment::index(0));
    assert_eq!(lookup.render(), "a.b[0][0]");
}

#[test]
fn fields() {
    let input = "florp.flop";
    let lookup = Lookup::from_str(input).unwrap();
    assert_eq!(*lookup.get(0), Segment::field("florp"));
    assert_eq!(*lookup.get(1), Segment::field("flop"));
    assert_eq!(lookup.render(), input);
}

#[test]
fn fields_with_quotes() {
    let input = "florp.\"flop fleep\"";
    let lookup = Lookup::from_str(input).unwrap();
    assert_eq!(*lookup.get(0), Segment::field("florp"));
    assert_eq!(*lookup.get(1), Segment::field(r#""flop fleep""#));
    assert_eq!(lookup.render(), input);
}

#[test]
fn to_string() {
    let input = SUFFICIENTLY_COMPLEX;
    let lookup = Lookup::from_str(input).unwrap();
    assert_eq!(lookup.render(), input);
}

#[test]
fn impl_index_ranges() {
    let lookup = Lookup::from_str(SUFFICIENTLY_COMPLEX).unwrap();
    let expected = sufficiently_decomposed();

    assert_eq!(lookup.slice(0, lookup.len())[..], expected[..]);
    assert_eq!(lookup.slice(0, 4)[..], expected[..4]);
    assert_eq!(lookup.slice(0, 5)[..], expected[..=4]);
    assert_eq!(lookup.slice(2, lookup.len())[..], expected[2..]);
}

#[test]
fn impl_index_usize() {
    let lookup = Lookup::from_str(SUFFICIENTLY_COMPLEX).unwrap();
    let expected = sufficiently_decomposed();

    for i in 0..expected.len() {
        assert_eq!(*lookup.get(i), expected[i]);
    }
}

#[test]
fn impl_index_mut_index_mut() {
    let mut lookup = Lookup::from_str(SUFFICIENTLY_COMPLEX).unwrap();
    let expected = sufficiently_decomposed();

    for i in 0..expected.len() {
        let replacement = expected[i].clone();
        lookup.set(i, replacement);
        assert_eq!(*lookup.get(i), expected[i]);
    }
}

#[test]
fn iter() {
    let lookup = Lookup::from_str(SUFFICIENTLY_COMPLEX).unwrap();
    let expected = sufficiently_decomposed();

    let mut iter = lookup.segments().iter();
    for (index, expected_seg) in expected.iter().enumerate() {
        let parsed = iter
            .next()
            .unwrap_or_else(|| panic!("Expected at index {}: {:?}, got None.", index, expected_seg));
        assert_eq!(expected_seg, parsed, "Failed at {}", index);
    }
}

#[test]
fn into_iter() {
    let lookup = Lookup::from_str(SUFFICIENTLY_COMPLEX).unwrap();
    let expected = sufficiently_decomposed();
    let mut iter = lookup.into_segments().into_iter();
    for (index, expected_seg) in expected.iter().cloned().enumerate() {
        let parsed = iter
            .next()
            .unwrap_or_else(|| panic!("Expected at index {}: {:?}, got None.", index, expected_seg));
        assert_eq!(expected_seg, parsed, "Failed at {}", index);
    }
}

#[test]
fn round_trip_concrete() {
    for input in [
        "a",
        "a.b.c",
        "foo[0]",
        "a.b[0][0]",
        "a[10].b[2].c",
        r#"x."a.b".y"#,
        "tags.some_tag",
    ] {
        let lookup = Lookup::from_str(input).unwrap();
        assert_eq!(lookup.render(), input);
    }
}

#[test]
fn extend_concatenates() {
    let mut base = Lookup::from("tags");
    let rest = Lookup::from_str("host.name").unwrap();
    base.extend(rest);
    assert_eq!(base.render(), "tags.host.name");
}
