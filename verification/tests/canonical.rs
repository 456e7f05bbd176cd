use obserde::canonical::canonicalize;
use obserde::contract::Contract;
use obserde::document::Document;
use obserde::schema::{Field, Schema, Type};
use obserde::version::SchemaVersion;

fn schema(field_names: &[&str]) -> Schema {
    let contract = Contract::new("elci.test", "fixture", SchemaVersion::new(1, 0, 0), 0).unwrap();
    let fields = field_names.iter().map(|n| Field::new(n, Type::Integer)).collect();
    Schema::new(contract, fields).unwrap()
}

fn map(entries: Vec<(&str, Document)>) -> Document {
    Document::Mapping(entries.into_iter().map(|(k, v)| (k.to_string(), v)).collect())
}

fn float(x: f64) -> Document {
    Document::Float(x.to_bits())
}

#[test]
fn declared_fields_ordered_before_unknown_extras() {
    let s = schema(&["b", "a"]);
    let doc = map(vec![("extra", Document::Integer(0)), ("a", Document::Integer(1)), ("b", Document::Integer(2))]);
    let canon = canonicalize(&s, &doc).unwrap();
    let keys: Vec<&str> = canon.as_map().unwrap().iter().map(|(k, _)| k.as_str()).collect();
    assert_eq!(keys, vec!["b", "a", "extra"]);
}

#[test]
fn nested_map_without_schema_is_ordered_lexicographically() {
    let s = schema(&["scores"]);
    let doc = map(vec![("scores", map(vec![("bob", Document::Integer(1)), ("alice", Document::Integer(2))]))]);
    let canon = canonicalize(&s, &doc).unwrap();
    let nested_keys: Vec<&str> =
        canon.get("scores").unwrap().as_map().unwrap().iter().map(|(k, _)| k.as_str()).collect();
    assert_eq!(nested_keys, vec!["alice", "bob"]);
}

#[test]
fn negative_zero_normalizes_to_zero() {
    let s = schema(&[]);
    let canon = canonicalize(&s, &float(-0.0)).unwrap();
    assert_eq!(canon, float(0.0));
    match canon {
        Document::Float(f) => assert!(!f64::from_bits(f).is_sign_negative()),
        _ => panic!("expected Float"),
    }
}

#[test]
fn explicit_null_is_preserved_not_dropped() {
    let s = schema(&["note"]);
    let doc = map(vec![("note", Document::Null)]);
    let canon = canonicalize(&s, &doc).unwrap();
    assert_eq!(canon.get("note"), Some(&Document::Null));
}

#[test]
fn list_order_is_preserved() {
    let s = schema(&[]);
    let doc = Document::List(vec![Document::Integer(3), Document::Integer(1), Document::Integer(2)]);
    let canon = canonicalize(&s, &doc).unwrap();
    assert_eq!(canon, Document::List(vec![Document::Integer(3), Document::Integer(1), Document::Integer(2)]));
}

#[test]
fn canonicalize_is_idempotent_on_a_concrete_example() {
    let s = schema(&["b", "a"]);
    let doc = map(vec![("extra", float(-0.0)), ("a", Document::Integer(1)), ("b", Document::Integer(2))]);
    let once = canonicalize(&s, &doc).unwrap();
    let twice = canonicalize(&s, &once).unwrap();
    assert_eq!(once, twice);
}

fn fixture_schema() -> Schema {
    let contract = Contract::new("elci.test", "idempotency", SchemaVersion::new(1, 0, 0), 0).unwrap();
    let fields = vec![Field::new("b", Type::Integer).required(false), Field::new("a", Type::Integer).required(false)];
    Schema::new(contract, fields).unwrap()
}

#[test]
fn canonicalize_is_idempotent() {
    let schema = fixture_schema();
    let docs = vec![
        Document::Null,
        Document::Bool(true),
        Document::Integer(i64::MIN),
        float(-0.0),
        float(999.5),
        Document::String("abc".to_string()),
        Document::Bytes(vec![0, 255, 7]),
        Document::List(vec![map(vec![("z", Document::Null), ("y", float(-0.0))]), Document::List(vec![])]),
        map(vec![
            ("q", map(vec![("b", Document::Integer(1)), ("a", Document::Integer(2)), ("a", Document::Integer(3))])),
            ("a", Document::Integer(1)),
            ("b", Document::List(vec![float(-0.0)])),
            ("aa", Document::Bytes(vec![])),
        ]),
    ];
    for doc in docs {
        let once = canonicalize(&schema, &doc).unwrap();
        let twice = canonicalize(&schema, &once).unwrap();
        assert_eq!(once, twice);
    }
}

#[test]
fn declared_order_applies_only_at_the_top_level() {
    let s = schema(&["b", "a"]);
    let doc = map(vec![("x", map(vec![("b", Document::Integer(1)), ("a", Document::Integer(2))]))]);
    let canon = canonicalize(&s, &doc).unwrap();
    let inner: Vec<&str> = canon.get("x").unwrap().as_map().unwrap().iter().map(|(k, _)| k.as_str()).collect();
    assert_eq!(inner, vec!["a", "b"]);
}

#[test]
fn equal_keys_keep_their_relative_order() {
    let s = schema(&[]);
    let doc = map(vec![("k", Document::Integer(1)), ("a", Document::Null), ("k", Document::Integer(2))]);
    let canon = canonicalize(&s, &doc).unwrap();
    assert_eq!(canon, map(vec![("a", Document::Null), ("k", Document::Integer(1)), ("k", Document::Integer(2))]));
}

#[test]
fn key_order_and_zero_sign_do_not_change_the_canonical_hash() {
    let s = schema(&["a", "b"]);
    let one = map(vec![
        ("b", float(-0.0)),
        ("a", map(vec![("y", Document::Integer(1)), ("x", Document::Integer(2))])),
    ]);
    let two = map(vec![
        ("a", map(vec![("x", Document::Integer(2)), ("y", Document::Integer(1))])),
        ("b", float(0.0)),
    ]);
    let h1 = obserde::hash::document_hash(&canonicalize(&s, &one).unwrap());
    let h2 = obserde::hash::document_hash(&canonicalize(&s, &two).unwrap());
    assert_eq!(h1, h2);
}
