use obserde::contract::Contract;
use obserde::document::Document;
use obserde::schema::{find_field, Constraint, Field, Schema, Type};
use obserde::version::SchemaVersion;

#[test]
fn type_name_per_variant() {
    assert_eq!(Document::Null.kind_name(), "null");
    assert_eq!(Document::Bool(true).kind_name(), "bool");
    assert_eq!(Document::Integer(1).kind_name(), "integer");
    assert_eq!(Document::Float(1.0f64.to_bits()).kind_name(), "float");
    assert_eq!(Document::String("s".into()).kind_name(), "string");
    assert_eq!(Document::Bytes(vec![]).kind_name(), "bytes");
    assert_eq!(Document::List(vec![]).kind_name(), "list");
    assert_eq!(Document::Mapping(vec![]).kind_name(), "map");
}

#[test]
fn is_null() {
    assert!(Document::Null.is_null());
    assert!(!Document::Bool(false).is_null());
}

#[test]
fn map_get_finds_first_matching_key() {
    let doc = Document::Mapping(vec![
        ("a".to_string(), Document::Integer(1)),
        ("a".to_string(), Document::Integer(2)),
    ]);
    assert_eq!(doc.get("a"), Some(&Document::Integer(1)));
    assert_eq!(doc.get("missing"), None);
}

#[test]
fn as_map_and_as_list_are_variant_specific() {
    let map = Document::Mapping(vec![]);
    let list = Document::List(vec![]);
    assert!(map.as_map().is_some());
    assert!(map.as_list().is_none());
    assert!(list.as_list().is_some());
    assert!(list.as_map().is_none());
}

#[test]
fn get_on_a_non_map_is_none() {
    assert_eq!(Document::List(vec![Document::Null]).get("a"), None);
}

#[test]
fn copy_is_identical() {
    let doc = Document::Mapping(vec![(
        "a".to_string(),
        Document::List(vec![Document::Bytes(vec![1, 2]), Document::Float(2.5f64.to_bits())]),
    )]);
    assert_eq!(doc.copy(), doc);
}

#[test]
fn range_constraint_is_constructible_and_comparable() {
    let a = Constraint::Range { min: Some(0.0f64.to_bits()), max: Some(100.0f64.to_bits()) };
    let b = Constraint::Range { min: Some(0.0f64.to_bits()), max: Some(100.0f64.to_bits()) };
    assert_eq!(a, b);
}

#[test]
fn one_sided_range_allows_absent_bound() {
    let c = Constraint::Range { min: Some(0.0f64.to_bits()), max: None };
    match c {
        Constraint::Range { min, max } => {
            assert_eq!(min.map(f64::from_bits), Some(0.0));
            assert_eq!(max, None);
        }
        _ => panic!("expected Range"),
    }
}

#[test]
fn defaults_are_required_no_constraints() {
    let f = Field::new("score", Type::Integer);
    assert_eq!(f.name(), "score");
    assert!(f.is_required());
    assert!(f.constraints().is_empty());
    assert_eq!(f.description_text(), None);
}

#[test]
fn builder_methods_compose() {
    let f = Field::new("score", Type::Integer)
        .required(false)
        .constraint(Constraint::Range { min: Some(0.0f64.to_bits()), max: Some(100.0f64.to_bits()) })
        .description("assessment score");
    assert!(!f.is_required());
    assert_eq!(f.constraints().len(), 1);
    assert_eq!(f.description_text(), Some("assessment score"));
}

fn contract() -> Contract {
    Contract::new("elci.uni", "snapshot", SchemaVersion::new(1, 0, 0), 0).unwrap()
}

#[test]
fn rejects_duplicate_field_names() {
    let fields = vec![Field::new("score", Type::Integer), Field::new("score", Type::Float)];
    let err = Schema::new(contract(), fields).unwrap_err();
    assert!(err.message().contains("score"));
}

#[test]
fn preserves_declaration_order() {
    let fields = vec![Field::new("b", Type::Integer), Field::new("a", Type::Integer)];
    let schema = Schema::new(contract(), fields).unwrap();
    let names: Vec<&str> = schema.fields().iter().map(Field::name).collect();
    assert_eq!(names, vec!["b", "a"]);
}

#[test]
fn field_lookup_by_name() {
    let fields = vec![Field::new("score", Type::Integer)];
    let schema = Schema::new(contract(), fields).unwrap();
    assert!(schema.field("score").is_some());
    assert!(schema.field("missing").is_none());
}

#[test]
fn two_independently_constructed_identical_schemas_are_equal() {
    let a = Schema::new(contract(), vec![Field::new("score", Type::Integer)]).unwrap();
    let b = Schema::new(contract(), vec![Field::new("score", Type::Integer)]).unwrap();
    assert_eq!(a, b);
}

#[test]
fn duplicate_error_names_the_first_repeat_and_the_contract() {
    let fields = vec![
        Field::new("a", Type::Integer),
        Field::new("b", Type::Integer),
        Field::new("b", Type::Float),
        Field::new("a", Type::Float),
    ];
    let err = Schema::new(contract(), fields).unwrap_err();
    assert_eq!(
        err.message(),
        "duplicate field \"b\" in schema elci.uni.snapshot/1.0.0+0"
    );
}

#[test]
fn find_field_returns_the_first_match() {
    let fields = vec![Field::new("a", Type::Integer), Field::new("a", Type::Float)];
    assert_eq!(find_field(&fields, "a").map(|f| f.ty().to_string()), Some("integer".to_string()));
    assert!(find_field(&fields, "z").is_none());
}

#[test]
fn document_equality_compares_doubles_as_ieee() {
    let zero = Document::Float(0.0f64.to_bits());
    let neg_zero = Document::Float((-0.0f64).to_bits());
    let nan = Document::Float(f64::NAN.to_bits());
    assert_eq!(zero, neg_zero);
    assert_ne!(nan, Document::Float(f64::NAN.to_bits()));
    assert_eq!(
        Document::List(vec![Document::Integer(1), Document::Float(1.5f64.to_bits())]),
        Document::List(vec![Document::Integer(1), Document::Float(1.5f64.to_bits())])
    );
    assert_ne!(
        Document::Mapping(vec![("a".to_string(), Document::Null)]),
        Document::Mapping(vec![("b".to_string(), Document::Null)])
    );
    assert_ne!(Document::List(vec![nan]), Document::List(vec![Document::Float(f64::NAN.to_bits())]));
    assert_ne!(Document::Integer(1), Document::Float(1.0f64.to_bits()));
}

#[test]
fn constraint_equality_compares_bounds_as_doubles() {
    let zero = Some(0.0f64.to_bits());
    let neg_zero = Some((-0.0f64).to_bits());
    assert_eq!(Constraint::Range { min: zero, max: None }, Constraint::Range { min: neg_zero, max: None });
    let nan = Some(f64::NAN.to_bits());
    assert_ne!(Constraint::Range { min: nan, max: None }, Constraint::Range { min: nan, max: None });
    assert_eq!(Constraint::NonEmpty, Constraint::NonEmpty);
    assert_ne!(Constraint::Length { min: Some(1), max: None }, Constraint::Length { min: None, max: None });
}
