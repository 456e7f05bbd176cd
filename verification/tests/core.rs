use obserde::contract::Contract;
use obserde::errors::ErrorCode;
use obserde::version::SchemaVersion;

#[test]
fn contract_parse_display_round_trip() {
    let c = Contract::parse("elci.uni.snapshot/1.4.0+2").unwrap();
    assert_eq!(c.namespace(), "elci.uni");
    assert_eq!(c.name(), "snapshot");
    assert_eq!(c.version(), SchemaVersion::new(1, 4, 0));
    assert_eq!(c.revision(), 2);
    assert_eq!(c.to_string(), "elci.uni.snapshot/1.4.0+2");
}

#[test]
fn parse_defaults_revision_to_zero() {
    let c = Contract::parse("elci.uni.snapshot/1.4.0").unwrap();
    assert_eq!(c.revision(), 0);
    assert_eq!(c.to_string(), "elci.uni.snapshot/1.4.0+0");
}

#[test]
fn new_matches_parse() {
    let a = Contract::new("elci.uni", "snapshot", SchemaVersion::new(1, 4, 0), 2).unwrap();
    let b = Contract::parse("elci.uni.snapshot/1.4.0+2").unwrap();
    assert_eq!(a, b);
}

#[test]
fn rejects_missing_version_segment() {
    assert!(Contract::parse("elci.uni.snapshot").is_err());
}

#[test]
fn rejects_single_segment_path() {
    assert!(Contract::parse("snapshot/1.0.0").is_err());
}

#[test]
fn rejects_uppercase_segments() {
    assert!(Contract::parse("Elci.uni.snapshot/1.0.0").is_err());
    assert!(Contract::new("elci.uni", "Snapshot", SchemaVersion::new(1, 0, 0), 0).is_err());
}

#[test]
fn rejects_invalid_characters() {
    assert!(Contract::parse("elci.uni.snap-shot/1.0.0").is_err());
}

#[test]
fn rejects_empty_namespace() {
    assert!(Contract::new("", "snapshot", SchemaVersion::new(1, 0, 0), 0).is_err());
}

#[test]
fn version_parse_display_round_trip() {
    let v = SchemaVersion::parse("1.4.0").unwrap();
    assert_eq!(v, SchemaVersion::new(1, 4, 0));
    assert_eq!(v.to_string(), "1.4.0");
}

#[test]
fn from_str_matches_parse() {
    let v: SchemaVersion = "2.10.3".parse().unwrap();
    assert_eq!(v, SchemaVersion::new(2, 10, 3));
}

#[test]
fn ordering_is_numeric_not_lexicographic() {
    let a = SchemaVersion::new(1, 9, 0);
    let b = SchemaVersion::new(1, 10, 0);
    assert!(a < b);
}

#[test]
fn rejects_missing_components() {
    assert!(SchemaVersion::parse("1.4").is_err());
    assert!(SchemaVersion::parse("1").is_err());
}

#[test]
fn rejects_extra_components() {
    assert!(SchemaVersion::parse("1.4.0.1").is_err());
}

#[test]
fn rejects_non_numeric_components() {
    assert!(SchemaVersion::parse("a.b.c").is_err());
    assert!(SchemaVersion::parse("1.4.x").is_err());
}

#[test]
fn rejects_negative_components() {
    assert!(SchemaVersion::parse("-1.4.0").is_err());
}

// The reasons and messages of refused identities.

#[test]
fn version_errors_name_the_first_bad_part() {
    let e = SchemaVersion::parse("1.4").unwrap_err();
    assert_eq!(e.code(), "core.version.invalid");
    assert_eq!(e.message(), "invalid schema version \"1.4\": missing patch component");
    let e = SchemaVersion::parse("1").unwrap_err();
    assert_eq!(e.message(), "invalid schema version \"1\": missing minor component");
    let e = SchemaVersion::parse("1.4.x").unwrap_err();
    assert_eq!(e.message(), "invalid schema version \"1.4.x\": \"x\" is not a valid non-negative integer");
    let e = SchemaVersion::parse("1.4.0.1").unwrap_err();
    assert_eq!(e.message(), "invalid schema version \"1.4.0.1\": too many components, expected MAJOR.MINOR.PATCH");
}

#[test]
fn version_accepts_a_plus_sign_and_large_components() {
    assert_eq!(SchemaVersion::parse("+1.0.4294967295").unwrap(), SchemaVersion::new(1, 0, 4294967295));
    assert!(SchemaVersion::parse("1.0.4294967296").is_err());
    assert!(SchemaVersion::parse("1..0").is_err());
}

#[test]
fn version_text_reads_back_to_the_same_version() {
    for v in [SchemaVersion::new(0, 0, 0), SchemaVersion::new(12, 0, 7), SchemaVersion::new(4294967295, 1, 2)] {
        assert_eq!(SchemaVersion::parse(&v.to_string()).unwrap(), v);
    }
}

#[test]
fn contract_text_reads_back_to_the_same_contract() {
    let c = Contract::new("a.b.c", "d_1", SchemaVersion::new(3, 2, 1), 9).unwrap();
    assert_eq!(Contract::parse(&c.to_string()).unwrap(), c);
}

#[test]
fn contract_error_code_and_message() {
    let e = Contract::parse("elci.uni.snapshot").unwrap_err();
    assert_eq!(e.code(), "core.contract.invalid");
    assert!(e.message().starts_with("invalid contract identifier \"elci.uni.snapshot\": "));
}

#[test]
fn contract_segment_reasons_quote_the_character() {
    let e = Contract::parse("elci.uni.snap-shot/1.0.0").unwrap_err();
    assert_eq!(
        e.message(),
        "invalid contract identifier \"elci.uni.snap-shot\": segment \"snap-shot\" contains disallowed character '-'"
    );
    let e = Contract::new("elci.uni", "Snapshot", SchemaVersion::new(1, 0, 0), 0).unwrap_err();
    assert_eq!(
        e.message(),
        "invalid contract identifier \"elci.uni.Snapshot\": segment \"Snapshot\" must start with a lowercase ASCII letter, found 'S'"
    );
}
