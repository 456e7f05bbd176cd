use obserde::compat::{severity_rank, CompatibilityLevel};
use obserde::document::{Document, ValueError};
use obserde::errors::ErrorCode;
use obserde::contract::Contract;
use obserde::hash::{document_hash, schema_hash};
use obserde::schema::{Field, Schema};
use obserde::version::SchemaVersion;
use obserde::path::Path;
use obserde::schema::Type;
use obserde::semantic::SemanticId;
use obserde::validate::{Severity, ValidationIssue, ValidationResult};

#[test]
fn hex_round_trip() {
    let hash = document_hash(&Document::Integer(42));
    let hex = hash.to_hex();
    assert_eq!(hex.len(), 64);
    assert_eq!(obserde::hash::Hash::from_hex(&hex).unwrap(), hash);
}

#[test]
fn from_hex_rejects_wrong_length() {
    assert!(obserde::hash::Hash::from_hex("abcd").is_err());
}

#[test]
fn from_hex_rejects_non_hex_characters() {
    let bad = "g".repeat(64);
    assert!(obserde::hash::Hash::from_hex(&bad).is_err());
}

#[test]
fn structurally_different_documents_hash_differently() {
    let a = Document::Integer(1);
    let b = Document::Integer(2);
    assert_ne!(document_hash(&a), document_hash(&b));
}

#[test]
fn equal_documents_hash_identically() {
    let a = Document::Mapping(vec![("x".to_string(), Document::Integer(1))]);
    let b = Document::Mapping(vec![("x".to_string(), Document::Integer(1))]);
    assert_eq!(document_hash(&a), document_hash(&b));
}

#[test]
fn hex_accepts_upper_case_and_prints_lower_case() {
    let upper = "AB".repeat(32);
    let h = obserde::hash::Hash::from_hex(&upper).unwrap();
    assert_eq!(h.to_hex(), "ab".repeat(32));
}

#[test]
fn sha256_of_the_integer_stream_is_the_known_digest() {
    // Integer 42 is hashed as the tag byte 0x02 followed by 42 as eight
    // big-endian bytes; its SHA-256 digest is fixed.
    let h = document_hash(&Document::Integer(42));
    assert_eq!(h.to_hex(), "7f6f2a07b549861c43103bb634a93dc1a5fa174faf02d7bdf7a26c42c8798dc6");
    assert_eq!(
        document_hash(&Document::Null).to_hex(),
        "6e340b9cffb37a989ca544e6bb780a2c78901d3fb33738768511a30617afa01d"
    );
    assert_ne!(h, document_hash(&Document::Float(42.0f64.to_bits())));
}

#[test]
fn primitives_display() {
    assert_eq!(Type::Bool.to_string(), "bool");
    assert_eq!(Type::Timestamp.to_string(), "timestamp");
}

#[test]
fn composite_display_matches_directive_example() {
    let ty = Type::map(Type::String, Type::Integer);
    assert_eq!(ty.to_string(), "map<string, integer>");
}

#[test]
fn nested_list_display() {
    let ty = Type::list(Type::list(Type::Float));
    assert_eq!(ty.to_string(), "list<list<float>>");
}

#[test]
fn is_composite_vs_primitive() {
    assert!(Type::Bool.is_primitive());
    assert!(!Type::Bool.is_composite());
    assert!(Type::list(Type::Bool).is_composite());
    assert!(!Type::list(Type::Bool).is_primitive());
}

fn issue(severity: Severity) -> ValidationIssue {
    ValidationIssue {
        path: Path::root(),
        code: "test.code".to_string(),
        severity,
        message: "message".to_string(),
        expected: None,
        actual: None,
    }
}

#[test]
fn empty_result_is_valid() {
    assert!(ValidationResult::default().is_valid());
}

#[test]
fn warnings_alone_are_still_valid() {
    let result = ValidationResult::new(vec![issue(Severity::Warning)]);
    assert!(result.is_valid());
    assert_eq!(result.errors().len(), 0);
}

#[test]
fn any_error_makes_result_invalid() {
    let result = ValidationResult::new(vec![issue(Severity::Warning), issue(Severity::Error)]);
    assert!(!result.is_valid());
    assert_eq!(result.errors().len(), 1);
}

#[test]
fn root_displays_as_dot() {
    assert_eq!(Path::root().to_string(), ".");
}

#[test]
fn field_and_index_chain_display() {
    let path = Path::root().field("scores").field("alice").index(2);
    assert_eq!(path.to_string(), ".scores.alice[2]");
}

#[test]
fn extension_does_not_mutate_original() {
    let root = Path::root();
    let extended = root.field("a");
    assert_eq!(root.to_string(), ".");
    assert_eq!(extended.to_string(), ".a");
}

#[test]
fn accepts_pascal_case_multi_segment() {
    let id = SemanticId::parse("UNI.Assessment.Score").unwrap();
    assert_eq!(id.as_str(), "UNI.Assessment.Score");
}

#[test]
fn accepts_padagonia_shaped_single_segment_hash() {
    let id = SemanticId::parse("assessment_score_a1b2c3d4e5f6a7b8c9d0e1f2a3b4c5d6").unwrap();
    assert_eq!(id.as_str(), "assessment_score_a1b2c3d4e5f6a7b8c9d0e1f2a3b4c5d6");
}

#[test]
fn rejects_empty_string() {
    assert!(SemanticId::parse("").is_err());
}

#[test]
fn rejects_empty_segment_via_leading_dot() {
    assert!(SemanticId::parse(".Score").is_err());
}

#[test]
fn rejects_empty_segment_via_trailing_dot() {
    assert!(SemanticId::parse("Score.").is_err());
}

#[test]
fn rejects_empty_segment_via_consecutive_dots() {
    assert!(SemanticId::parse("UNI..Score").is_err());
}

#[test]
fn rejects_non_ascii() {
    assert!(SemanticId::parse("Scoré").is_err());
}

#[test]
fn rejects_digit_leading_segment() {
    assert!(SemanticId::parse("1Score").is_err());
}

#[test]
fn rejects_underscore_leading_segment() {
    assert!(SemanticId::parse("_Score").is_err());
}

#[test]
fn case_sensitivity_is_significant() {
    let upper = SemanticId::parse("UNI.Score").unwrap();
    let lower = SemanticId::parse("uni.score").unwrap();
    assert_ne!(upper, lower);
}

#[test]
fn severity_rank_orders_breaking_above_unknown_above_conditionally_compatible_above_compatible() {
    assert!(severity_rank(CompatibilityLevel::Breaking) > severity_rank(CompatibilityLevel::Unknown));
    assert!(severity_rank(CompatibilityLevel::Unknown) > severity_rank(CompatibilityLevel::ConditionallyCompatible));
    assert!(severity_rank(CompatibilityLevel::ConditionallyCompatible) > severity_rank(CompatibilityLevel::Compatible));
}

#[test]
fn schema_hash_depends_on_the_fields() {
    let c = || Contract::new("elci.test", "hash", SchemaVersion::new(1, 0, 0), 0).unwrap();
    let a = Schema::new(c(), vec![Field::new("x", Type::Integer)]).unwrap();
    let b = Schema::new(c(), vec![Field::new("x", Type::Integer)]).unwrap();
    let d = Schema::new(c(), vec![Field::new("x", Type::Integer).required(false)]).unwrap();
    assert_eq!(schema_hash(&a), schema_hash(&b));
    assert_ne!(schema_hash(&a), schema_hash(&d));
}

#[test]
fn value_error_code_and_message() {
    let e = ValueError::TypeMismatch { expected: "map", actual: "list", path: Path::root().field("a").index(2) };
    assert_eq!(e.code(), "value.type-mismatch");
    assert_eq!(e.message(), "expected map, found list at .a[2]");
}

#[test]
fn versions_order_numerically() {
    assert!(SchemaVersion::new(1, 9, 0) < SchemaVersion::new(1, 10, 0));
    assert!(SchemaVersion::new(2, 0, 0) > SchemaVersion::new(1, 99, 99));
    assert!(SchemaVersion::new(1, 2, 3) <= SchemaVersion::new(1, 2, 3));
    assert_eq!(
        SchemaVersion::new(1, 2, 4).partial_cmp(&SchemaVersion::new(1, 2, 3)),
        Some(std::cmp::Ordering::Greater)
    );
}

#[test]
fn hex_text_comes_back_in_lower_case() {
    let upper = "00FF10AB".repeat(8);
    let hash = obserde::hash::Hash::from_hex(&upper).unwrap();
    assert_eq!(hash.to_hex(), upper.to_ascii_lowercase());
}
