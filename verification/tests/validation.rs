use obserde::contract::Contract;
use obserde::document::Document;
use obserde::errors::ErrorCode;
use obserde::grammar;
use obserde::schema::{Constraint, Field, Schema, Type};
use obserde::validate::validate;
use obserde::version::SchemaVersion;

fn render(b: u64) -> String {
    f64::from_bits(b).to_string()
}

fn bits(x: f64) -> u64 {
    x.to_bits()
}

fn contract() -> Contract {
    Contract::new("elci.test", "fixture", SchemaVersion::new(1, 0, 0), 0).unwrap()
}

fn doc_map(entries: Vec<(&str, Document)>) -> Document {
    Document::Mapping(entries.into_iter().map(|(k, v)| (k.to_string(), v)).collect())
}

#[test]
fn missing_required_field_is_reported() {
    let schema = Schema::new(contract(), vec![Field::new("score", Type::Integer)]).unwrap();
    let result = validate(&schema, &doc_map(vec![]), &render).unwrap();
    assert!(!result.is_valid());
    assert_eq!(result.issues()[0].code, "validate.field.missing");
}

#[test]
fn missing_optional_field_is_fine() {
    let schema = Schema::new(contract(), vec![Field::new("score", Type::Integer).required(false)]).unwrap();
    let result = validate(&schema, &doc_map(vec![]), &render).unwrap();
    assert!(result.is_valid());
}

#[test]
fn nested_list_type_mismatch_is_reported_with_index_path() {
    let schema = Schema::new(contract(), vec![Field::new("scores", Type::list(Type::Integer))]).unwrap();
    let doc = doc_map(vec![(
        "scores",
        Document::List(vec![Document::Integer(1), Document::String("x".into())]),
    )]);
    let result = validate(&schema, &doc, &render).unwrap();
    assert!(!result.is_valid());
    let issue = &result.issues()[0];
    assert_eq!(issue.code, "validate.type.mismatch");
    assert_eq!(issue.path.to_string(), ".scores[1]");
}

#[test]
fn nested_map_type_mismatch_is_reported_with_field_path() {
    let schema =
        Schema::new(contract(), vec![Field::new("scores", Type::map(Type::String, Type::Integer))]).unwrap();
    let doc = doc_map(vec![(
        "scores",
        Document::Mapping(vec![("alice".to_string(), Document::String("not-a-number".into()))]),
    )]);
    let result = validate(&schema, &doc, &render).unwrap();
    assert!(!result.is_valid());
    assert_eq!(result.issues()[0].path.to_string(), ".scores.alice");
}

#[test]
fn range_constraint_pass_fail_boundary() {
    let schema = Schema::new(
        contract(),
        vec![Field::new("score", Type::Integer)
            .constraint(Constraint::Range { min: Some(bits(0.0)), max: Some(bits(100.0)) })],
    )
    .unwrap();

    let at_boundary = doc_map(vec![("score", Document::Integer(100))]);
    assert!(validate(&schema, &at_boundary, &render).unwrap().is_valid());

    let over = doc_map(vec![("score", Document::Integer(101))]);
    let result = validate(&schema, &over, &render).unwrap();
    assert!(!result.is_valid());
    assert_eq!(result.issues()[0].code, "validate.constraint.range");
}

#[test]
fn length_constraint_pass_fail() {
    let schema = Schema::new(
        contract(),
        vec![Field::new("name", Type::String).constraint(Constraint::Length { min: None, max: Some(3) })],
    )
    .unwrap();

    assert!(validate(&schema, &doc_map(vec![("name", Document::String("abc".into()))]), &render)
        .unwrap()
        .is_valid());

    let result = validate(&schema, &doc_map(vec![("name", Document::String("abcd".into()))]), &render).unwrap();
    assert!(!result.is_valid());
    assert_eq!(result.issues()[0].code, "validate.constraint.length");
}

#[test]
fn pattern_constraint_pass_fail() {
    let schema = Schema::new(
        contract(),
        vec![Field::new("id", Type::String).constraint(Constraint::Pattern { grammar: "identifier".to_string() })],
    )
    .unwrap();

    assert!(validate(&schema, &doc_map(vec![("id", Document::String("elci.uni".into()))]), &render)
        .unwrap()
        .is_valid());

    let result = validate(&schema, &doc_map(vec![("id", Document::String("Not Valid".into()))]), &render).unwrap();
    assert!(!result.is_valid());
    assert_eq!(result.issues()[0].code, "validate.constraint.pattern");
}

#[test]
fn pattern_constraint_unrecognized_grammar_is_a_validate_error() {
    let schema = Schema::new(
        contract(),
        vec![Field::new("id", Type::String).constraint(Constraint::Pattern { grammar: "email".to_string() })],
    )
    .unwrap();
    let err = validate(&schema, &doc_map(vec![("id", Document::String("x".into()))]), &render).unwrap_err();
    assert!(err.message().contains("email"));
    assert_eq!(err.code(), "validate.pattern.invalid-grammar");
}

#[test]
fn non_empty_constraint_pass_fail() {
    let schema = Schema::new(
        contract(),
        vec![Field::new("tags", Type::list(Type::String)).constraint(Constraint::NonEmpty)],
    )
    .unwrap();

    assert!(validate(
        &schema,
        &doc_map(vec![("tags", Document::List(vec![Document::String("a".into())]))]),
        &render
    )
    .unwrap()
    .is_valid());

    let result = validate(&schema, &doc_map(vec![("tags", Document::List(vec![]))]), &render).unwrap();
    assert!(!result.is_valid());
    assert_eq!(result.issues()[0].code, "validate.constraint.non-empty");
}

#[test]
fn timestamp_type_pass_fail() {
    let schema = Schema::new(contract(), vec![Field::new("at", Type::Timestamp)]).unwrap();

    assert!(validate(&schema, &doc_map(vec![("at", Document::String("2026-09-05T12:00:00Z".into()))]), &render)
        .unwrap()
        .is_valid());

    let result =
        validate(&schema, &doc_map(vec![("at", Document::String("not-a-timestamp".into()))]), &render).unwrap();
    assert!(!result.is_valid());
    assert_eq!(result.issues()[0].code, "validate.type.mismatch");
}

#[test]
fn valid_document_satisfies_schema_end_to_end() {
    let schema = Schema::new(
        contract(),
        vec![
            Field::new("score", Type::Integer).constraint(Constraint::Range { min: Some(bits(0.0)), max: Some(bits(100.0)) }),
            Field::new("name", Type::String).constraint(Constraint::NonEmpty),
        ],
    )
    .unwrap();
    let doc = doc_map(vec![("score", Document::Integer(50)), ("name", Document::String("alice".into()))]);
    assert!(validate(&schema, &doc, &render).unwrap().is_valid());
}

// Further findings and their exact texts.

#[test]
fn a_non_map_document_is_one_issue_at_the_root() {
    let schema = Schema::new(contract(), vec![Field::new("score", Type::Integer)]).unwrap();
    let result = validate(&schema, &Document::List(vec![]), &render).unwrap();
    assert_eq!(result.issues().len(), 1);
    let issue = &result.issues()[0];
    assert_eq!(issue.code, "validate.document.not-a-map");
    assert_eq!(issue.path.to_string(), ".");
    assert_eq!(issue.message, "expected a map document, found list");
    assert_eq!(issue.expected.as_deref(), Some("map"));
    assert_eq!(issue.actual.as_deref(), Some("list"));
}

#[test]
fn range_message_renders_the_bound_as_a_double() {
    let schema = Schema::new(
        contract(),
        vec![Field::new("score", Type::Float).constraint(Constraint::Range { min: Some(bits(0.5)), max: None })],
    )
    .unwrap();
    let result = validate(&schema, &doc_map(vec![("score", Document::Float(bits(0.25)))]), &render).unwrap();
    assert!(!result.is_valid());
    assert_eq!(result.issues()[0].code, "validate.constraint.range");
    assert!(result.issues()[0].message.contains("0.5"));
}

#[test]
fn a_present_null_is_a_type_mismatch_even_for_an_optional_field() {
    let schema = Schema::new(contract(), vec![Field::new("note", Type::String).required(false)]).unwrap();
    let result = validate(&schema, &doc_map(vec![("note", Document::Null)]), &render).unwrap();
    assert!(!result.is_valid());
    assert_eq!(result.issues()[0].code, "validate.type.mismatch");
    assert_eq!(result.issues()[0].path.to_string(), ".note");
}

fn is_identifier(s: &str) -> bool {
    grammar::is_identifier(&s.chars().collect::<Vec<char>>())
}

fn is_rfc3339(s: &str) -> bool {
    grammar::is_rfc3339(&s.chars().collect::<Vec<char>>())
}

#[test]
fn identifier_grammar() {
    assert!(is_identifier("elci.uni"));
    assert!(is_identifier("a_b.c9"));
    assert!(!is_identifier(""));
    assert!(!is_identifier("Upper"));
    assert!(!is_identifier("a..b"));
    assert!(!is_identifier("9a"));
}

#[test]
fn rfc3339_grammar() {
    assert!(is_rfc3339("2026-09-05T12:00:00Z"));
    assert!(is_rfc3339("2026-09-05T12:00:00.123+02:00"));
    assert!(!is_rfc3339("2026-09-05"));
    assert!(!is_rfc3339("not-a-timestamp"));
}

#[test]
fn non_map_document_gets_one_issue_and_every_issue_is_an_error() {
    let schema = Schema::new(contract(), vec![Field::new("score", Type::Integer)]).unwrap();
    let result = validate(&schema, &Document::Integer(3), &render).unwrap();
    assert_eq!(result.issues().len(), 1);
    assert_eq!(result.issues()[0].code, "validate.document.not-a-map");
    assert_eq!(result.issues()[0].path.to_string(), ".");
    let schema = Schema::new(
        contract(),
        vec![Field::new("a", Type::Integer), Field::new("b", Type::String).required(false), Field::new("c", Type::Bool)],
    )
    .unwrap();
    let result = validate(&schema, &doc_map(vec![("a", Document::String("x".to_string()))]), &render).unwrap();
    assert!(result.issues().iter().all(|i| i.severity == obserde::validate::Severity::Error));
    let missing: Vec<String> =
        result.issues().iter().filter(|i| i.code == "validate.field.missing").map(|i| i.path.to_string()).collect();
    assert_eq!(missing, vec![".c".to_string()]);
}
