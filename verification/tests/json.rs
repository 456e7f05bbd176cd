use obserde::canonical::canonicalize;
use obserde::contract::Contract;
use obserde::document::Document;
use obserde::errors::ErrorCode;
use obserde::hash::document_hash;
use obserde::json::{
    bytes_fit_base64, check_input_size, decode, decode_value, decode_with_limits, encode_value, DecodeError,
    DecodeLimits, EncodeError, JsonNumber, JsonValue,
};
use obserde::schema::{Field, Schema, Type};
use obserde::validate::validate;
use obserde::version::SchemaVersion;

// The library reads JSON text itself; writing text from an encoded value is
// left to the caller, so the tests write it here with serde_json.

fn to_serde(v: &JsonValue) -> serde_json::Value {
    match v {
        JsonValue::Null => serde_json::Value::Null,
        JsonValue::Bool(b) => serde_json::Value::Bool(*b),
        JsonValue::Number(JsonNumber::PosInt(u)) => serde_json::Value::Number((*u).into()),
        JsonValue::Number(JsonNumber::NegInt(i)) => serde_json::Value::Number((*i).into()),
        JsonValue::Number(JsonNumber::Float(b)) => {
            serde_json::Value::Number(serde_json::Number::from_f64(f64::from_bits(*b)).unwrap())
        }
        JsonValue::String(s) => serde_json::Value::String(s.clone()),
        JsonValue::Array(items) => serde_json::Value::Array(items.iter().map(to_serde).collect()),
        JsonValue::Object(entries) => {
            let mut m = serde_json::Map::new();
            for (k, v) in entries {
                m.insert(k.clone(), to_serde(v));
            }
            serde_json::Value::Object(m)
        }
    }
}

fn encode(doc: &Document) -> Result<String, EncodeError> {
    assert!(bytes_fit_base64(doc));
    let value = encode_value(doc)?;
    serde_json::to_string(&to_serde(&value)).map_err(EncodeError::Internal)
}

fn float(x: f64) -> Document {
    Document::Float(x.to_bits())
}

#[test]
fn decodes_all_primitive_variants() {
    assert_eq!(decode("null").unwrap(), Document::Null);
    assert_eq!(decode("true").unwrap(), Document::Bool(true));
    assert_eq!(decode("\"hi\"").unwrap(), Document::String("hi".to_string()));
}

#[test]
fn integer_literal_decodes_as_integer() {
    assert_eq!(decode("5").unwrap(), Document::Integer(5));
    assert_eq!(decode("-5").unwrap(), Document::Integer(-5));
}

#[test]
fn decimal_literal_decodes_as_float() {
    assert_eq!(decode("5.0").unwrap(), float(5.0));
}

#[test]
fn decodes_list_and_map() {
    let doc = decode(r#"{"items":[1,2]}"#).unwrap();
    assert_eq!(
        doc,
        Document::Mapping(vec![(
            "items".to_string(),
            Document::List(vec![Document::Integer(1), Document::Integer(2)])
        )])
    );
}

#[test]
fn integer_beyond_i64_max_is_rejected_not_downgraded() {
    let err = decode("9223372036854775808").unwrap_err();
    match err {
        DecodeError::IntegerOutOfRange { literal, .. } => {
            assert_eq!(literal, "9223372036854775808");
        }
        other => panic!("expected IntegerOutOfRange, got {other:?}"),
    }
}

#[test]
fn malformed_json_is_a_syntax_error_with_location() {
    let err = decode("{not valid json").unwrap_err();
    match err {
        DecodeError::Syntax { line, column, .. } => {
            assert_eq!(line, 1);
            assert!(column > 0);
        }
        other => panic!("expected Syntax, got {other:?}"),
    }
}

#[test]
fn input_too_large_is_rejected_before_parsing() {
    let limits = DecodeLimits { max_input_bytes: 4, ..DecodeLimits::default() };
    let err = decode_with_limits("123456", &limits).unwrap_err();
    match err {
        DecodeError::InputTooLarge { limit, actual } => {
            assert_eq!(limit, 4);
            assert_eq!(actual, 6);
        }
        other => panic!("expected InputTooLarge, got {other:?}"),
    }
}

#[test]
fn depth_exceeded_reports_the_offending_path() {
    let limits = DecodeLimits { max_depth: 1, ..DecodeLimits::default() };
    let err = decode_with_limits(r#"{"a":{"b":1}}"#, &limits).unwrap_err();
    match err {
        DecodeError::DepthExceeded { path, limit } => {
            assert_eq!(limit, 1);
            assert_eq!(path.to_string(), ".a.b");
        }
        other => panic!("expected DepthExceeded, got {other:?}"),
    }
}

#[test]
fn string_too_long_reports_char_count_not_byte_count() {
    let limits = DecodeLimits { max_string_len: 2, ..DecodeLimits::default() };
    let err = decode_with_limits("\"日本語\"", &limits).unwrap_err();
    match err {
        DecodeError::StringTooLong { limit, actual, .. } => {
            assert_eq!(limit, 2);
            assert_eq!(actual, 3);
        }
        other => panic!("expected StringTooLong, got {other:?}"),
    }
}

#[test]
fn collection_too_large_reports_the_offending_path() {
    let limits = DecodeLimits { max_collection_len: 2, ..DecodeLimits::default() };
    let err = decode_with_limits(r#"{"items":[1,2,3]}"#, &limits).unwrap_err();
    match err {
        DecodeError::CollectionTooLarge { path, limit, actual } => {
            assert_eq!(limit, 2);
            assert_eq!(actual, 3);
            assert_eq!(path.to_string(), ".items");
        }
        other => panic!("expected CollectionTooLarge, got {other:?}"),
    }
}

#[test]
fn encodes_all_primitive_variants() {
    assert_eq!(encode(&Document::Null).unwrap(), "null");
    assert_eq!(encode(&Document::Bool(true)).unwrap(), "true");
    assert_eq!(encode(&Document::Integer(42)).unwrap(), "42");
    assert_eq!(encode(&float(1.5)).unwrap(), "1.5");
    assert_eq!(encode(&Document::String("hi".into())).unwrap(), "\"hi\"");
}

#[test]
fn whole_number_float_keeps_a_decimal_point() {
    assert_eq!(encode(&float(5.0)).unwrap(), "5.0");
}

#[test]
fn encodes_bytes_as_standard_base64() {
    let encoded = encode(&Document::Bytes(vec![0xde, 0xad, 0xbe, 0xef])).unwrap();
    assert_eq!(encoded, "\"3q2+7w==\"");
}

#[test]
fn encodes_list_and_map() {
    let doc = Document::Mapping(vec![(
        "items".to_string(),
        Document::List(vec![Document::Integer(1), Document::Integer(2)]),
    )]);
    assert_eq!(encode(&doc).unwrap(), r#"{"items":[1,2]}"#);
}

#[test]
fn rejects_top_level_nan() {
    let err = encode(&float(f64::NAN)).unwrap_err();
    match err {
        EncodeError::NonFiniteFloat { path, kind } => {
            assert_eq!(path.to_string(), ".");
            assert_eq!(kind, "NaN");
        }
        other => panic!("expected NonFiniteFloat, got {other:?}"),
    }
}

#[test]
fn rejects_infinity_nested_inside_a_list() {
    let doc = Document::List(vec![Document::Integer(1), float(f64::INFINITY)]);
    let err = encode(&doc).unwrap_err();
    match err {
        EncodeError::NonFiniteFloat { path, kind } => {
            assert_eq!(path.to_string(), "[1]");
            assert_eq!(kind, "infinite");
        }
        other => panic!("expected NonFiniteFloat, got {other:?}"),
    }
}

#[test]
fn rejects_nan_nested_inside_a_map() {
    let doc = Document::Mapping(vec![("score".to_string(), float(f64::NAN))]);
    let err = encode(&doc).unwrap_err();
    match err {
        EncodeError::NonFiniteFloat { path, .. } => assert_eq!(path.to_string(), ".score"),
        other => panic!("expected NonFiniteFloat, got {other:?}"),
    }
}

#[test]
fn duplicate_keys_collapse_to_last_value_at_encode_time() {
    let doc = Document::Mapping(vec![
        ("a".to_string(), Document::Integer(1)),
        ("a".to_string(), Document::Integer(2)),
    ]);
    assert_eq!(encode(&doc).unwrap(), r#"{"a":2}"#);
}

#[test]
fn decode_of_encode_is_identity() {
    let docs = vec![
        Document::Null,
        Document::Bool(false),
        Document::Integer(i64::MIN),
        Document::Integer(i64::MAX),
        float(-999.25),
        float(0.1),
        Document::String("abc".to_string()),
        Document::List(vec![Document::Integer(1), Document::List(vec![])]),
        Document::Mapping(vec![
            ("b".to_string(), Document::Mapping(vec![("z".to_string(), Document::Null)])),
            ("a".to_string(), float(3.5)),
        ]),
    ];
    for doc in docs {
        let json = encode(&doc).unwrap();
        let decoded = decode(&json).unwrap();
        assert_eq!(decoded, doc);
    }
}

fn pipeline_schema() -> Schema {
    let contract = Contract::new("elci.assessment", "pipeline", SchemaVersion::new(1, 0, 0), 0).unwrap();
    Schema::new(
        contract,
        vec![
            Field::new("score", Type::Integer),
            Field::new("name", Type::String),
            Field::new("signature", Type::Bytes),
        ],
    )
    .unwrap()
}

fn pipeline_document() -> Document {
    Document::Mapping(vec![
        ("signature".to_string(), Document::Bytes(vec![1, 2, 3])),
        ("name".to_string(), Document::String("alice".to_string())),
        ("score".to_string(), Document::Integer(87)),
    ])
}

fn without_signature(doc: &Document) -> Document {
    match doc {
        Document::Mapping(entries) => Document::Mapping(
            entries.iter().filter(|(k, _)| k != "signature").map(|(k, v)| (k.clone(), v.copy())).collect(),
        ),
        other => other.copy(),
    }
}

fn render(b: u64) -> String {
    f64::from_bits(b).to_string()
}

#[test]
fn schema_validate_canonicalize_encode_decode_hash() {
    let schema = pipeline_schema();
    let original = pipeline_document();

    let validation = validate(&schema, &original, &render).unwrap();
    assert!(validation.is_valid(), "unexpected issues: {:?}", validation.issues());

    let canonical = canonicalize(&schema, &original).unwrap();
    let canonical_without_bytes = without_signature(&canonical);
    let expected_hash = document_hash(&canonical_without_bytes);

    let wire = encode(&canonical).unwrap();
    let decoded = decode(&wire).unwrap();

    let recanonicalized = canonicalize(&schema, &decoded).unwrap();
    assert_eq!(without_signature(&recanonicalized), canonical_without_bytes);
    assert_eq!(document_hash(&without_signature(&recanonicalized)), expected_hash);
}

#[test]
fn bytes_field_does_not_round_trip_through_schema_agnostic_decode() {
    let schema = pipeline_schema();
    let original = pipeline_document();
    let canonical = canonicalize(&schema, &original).unwrap();

    let original_signature = canonical.get("signature").unwrap();
    assert!(matches!(original_signature, Document::Bytes(_)));

    let wire = encode(&canonical).unwrap();
    let decoded = decode(&wire).unwrap();
    let decoded_signature = decoded.get("signature").unwrap();
    assert!(matches!(decoded_signature, Document::String(_)));

    let validation = validate(&schema, &decoded, &render).unwrap();
    assert!(!validation.is_valid());
    let issue = validation.issues().iter().find(|i| i.path.to_string() == ".signature").unwrap();
    assert_eq!(issue.code, "validate.type.mismatch");
}

#[test]
fn decode_and_encode_error_codes_and_messages() {
    let e = check_input_size(6, &DecodeLimits { max_input_bytes: 4, ..DecodeLimits::default() }).unwrap_err();
    assert_eq!(e.code(), "json.decode.input-too-large");
    assert_eq!(e.message(), "input too large: 6 bytes exceeds the 4 byte limit");
    let e = encode(&float(f64::NAN)).unwrap_err();
    assert_eq!(e.code(), "json.encode.non-finite-float");
    assert_eq!(e.message(), "cannot encode non-finite float (NaN) at .");
}

#[test]
fn negative_zero_and_large_integers_decode_exactly() {
    assert_eq!(decode("-0.0").unwrap(), float(-0.0));
    assert_eq!(decode("-9223372036854775808").unwrap(), Document::Integer(i64::MIN));
    let limits = DecodeLimits::default();
    assert_eq!(
        decode_value(&JsonValue::Number(JsonNumber::PosInt(u64::MAX)), &limits).unwrap_err(),
        DecodeError::IntegerOutOfRange { path: obserde::path::Path::root(), literal: "18446744073709551615".to_string() }
    );
}

#[test]
fn default_limits() {
    let l = DecodeLimits::default();
    assert_eq!(l.max_input_bytes, 10 * 1024 * 1024);
    assert_eq!(l.max_depth, 64);
    assert_eq!(l.max_string_len, 1_000_000);
    assert_eq!(l.max_collection_len, 100_000);
}

#[test]
fn encode_error_names_the_first_non_finite_double() {
    let doc = Document::Mapping(vec![
        ("a".to_string(), Document::List(vec![float(1.0), float(f64::NEG_INFINITY)])),
        ("b".to_string(), float(f64::NAN)),
    ]);
    match encode_value(&doc).unwrap_err() {
        EncodeError::NonFiniteFloat { path, kind } => {
            assert_eq!(path.to_string(), ".a[1]");
            assert_eq!(kind, "infinite");
        }
        other => panic!("expected NonFiniteFloat, got {other:?}"),
    }
}
