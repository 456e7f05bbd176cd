use obserde::contract::Contract;
use obserde::document::Document;
use obserde::schema::{Constraint, Field, Schema, Type};
use obserde::semantic::{
    semantic_result, validate_semantic, FieldSemantics, ResolverError, SemanticAnnotations, SemanticError, SemanticId,
    SemanticResolver, StaticResolver,
};
use obserde::version::SchemaVersion;

fn id(s: &str) -> SemanticId {
    SemanticId::parse(s).unwrap()
}

#[test]
fn annotate_and_get_round_trip() {
    let mut annotations = SemanticAnnotations::new();
    annotations.annotate(
        "score",
        FieldSemantics::new(id("UNI.Assessment.Score"))
            .with_relation("measures", id("Assessment.Domain"))
            .with_relation("represents", id("ProjectQuality")),
    );

    let semantics = annotations.get("score").unwrap();
    assert_eq!(semantics.concept, id("UNI.Assessment.Score"));
    assert_eq!(semantics.relations.len(), 2);
    assert!(annotations.get("missing").is_none());
}

#[test]
fn field_names_lists_every_annotated_field() {
    let mut annotations = SemanticAnnotations::new();
    annotations.annotate("a", FieldSemantics::new(id("A")));
    annotations.annotate("b", FieldSemantics::new(id("B")));
    let mut names: Vec<&str> = annotations.field_names();
    names.sort_unstable();
    assert_eq!(names, vec!["a", "b"]);
}

#[test]
fn annotating_a_field_again_replaces_its_semantics() {
    let mut annotations = SemanticAnnotations::new();
    annotations.annotate("a", FieldSemantics::new(id("A")));
    annotations.annotate("a", FieldSemantics::new(id("B")));
    assert_eq!(annotations.get("a").unwrap().concept, id("B"));
    assert_eq!(annotations.field_names().len(), 1);
}

#[test]
fn with_concept_registers_existence() {
    let resolver = StaticResolver::new().with_concept(id("A"));
    assert_eq!(resolver.concept_exists(&id("A")), Ok(true));
    assert_eq!(resolver.concept_exists(&id("B")), Ok(false));
}

#[test]
fn with_relation_auto_registers_both_endpoints() {
    let resolver = StaticResolver::new().with_relation(id("A"), "measures", id("B"));
    assert_eq!(resolver.concept_exists(&id("A")), Ok(true));
    assert_eq!(resolver.concept_exists(&id("B")), Ok(true));
    assert_eq!(resolver.relation_permitted(&id("A"), "measures", &id("B")), Ok(true));
}

#[test]
fn relation_not_registered_is_not_permitted() {
    let resolver = StaticResolver::new().with_relation(id("A"), "measures", id("B"));
    assert_eq!(resolver.relation_permitted(&id("A"), "represents", &id("B")), Ok(false));
}

#[test]
fn both_concepts_known_but_relation_never_registered_is_not_permitted() {
    let resolver = StaticResolver::new().with_concept(id("A")).with_concept(id("B"));
    assert_eq!(resolver.concept_exists(&id("A")), Ok(true));
    assert_eq!(resolver.concept_exists(&id("B")), Ok(true));
    assert_eq!(resolver.relation_permitted(&id("A"), "measures", &id("B")), Ok(false));
}

fn test_schema(fields: Vec<Field>) -> Schema {
    let contract = Contract::new("elci.test", "semantic", SchemaVersion::new(1, 0, 0), 0).unwrap();
    Schema::new(contract, fields).unwrap()
}

fn doc_map(entries: Vec<(&str, Document)>) -> Document {
    Document::Mapping(entries.into_iter().map(|(k, v)| (k.to_string(), v)).collect())
}

struct AlwaysFailsResolver;

impl SemanticResolver for AlwaysFailsResolver {
    fn concept_exists(&self, _id: &SemanticId) -> Result<bool, ResolverError> {
        Err(ResolverError::new("simulated resolver outage"))
    }

    fn relation_permitted(&self, _from: &SemanticId, _relation: &str, _to: &SemanticId) -> Result<bool, ResolverError> {
        Err(ResolverError::new("simulated resolver outage"))
    }
}

#[test]
fn validate_unannotated_field_is_silently_skipped() {
    let schema = test_schema(vec![Field::new("score", Type::Integer)]);
    let annotations = SemanticAnnotations::new();
    let resolver = StaticResolver::new();
    let doc = doc_map(vec![("score", Document::Integer(50))]);
    let result = validate_semantic(&schema, &annotations, &resolver, &doc).unwrap();
    assert!(result.is_valid());
    assert!(result.issues().is_empty());
}

#[test]
fn validate_annotated_field_absent_from_document_is_silently_skipped() {
    let schema = test_schema(vec![Field::new("score", Type::Integer).required(false)]);
    let mut annotations = SemanticAnnotations::new();
    annotations.annotate("score", FieldSemantics::new(id("Score")));
    let resolver = StaticResolver::new();
    let doc = doc_map(vec![]);
    let result = validate_semantic(&schema, &annotations, &resolver, &doc).unwrap();
    assert!(result.is_valid());
}

#[test]
fn unknown_annotated_field_is_a_hard_error() {
    let schema = test_schema(vec![Field::new("score", Type::Integer)]);
    let mut annotations = SemanticAnnotations::new();
    annotations.annotate("typo_field", FieldSemantics::new(id("Score")));
    let resolver = StaticResolver::new();
    let doc = doc_map(vec![("score", Document::Integer(50))]);
    let err = validate_semantic(&schema, &annotations, &resolver, &doc).unwrap_err();
    assert!(matches!(err, SemanticError::UnknownAnnotatedField { field } if field == "typo_field"));
}

#[test]
fn validate_unknown_concept_produces_an_issue() {
    let schema = test_schema(vec![Field::new("score", Type::Integer)]);
    let mut annotations = SemanticAnnotations::new();
    annotations.annotate("score", FieldSemantics::new(id("Score")));
    let resolver = StaticResolver::new();
    let doc = doc_map(vec![("score", Document::Integer(50))]);
    let result = validate_semantic(&schema, &annotations, &resolver, &doc).unwrap();
    assert!(!result.is_valid());
    assert_eq!(result.issues()[0].code, "semantic.concept.unknown");
}

#[test]
fn validate_unpermitted_relation_produces_an_issue() {
    let schema = test_schema(vec![Field::new("score", Type::Integer)]);
    let mut annotations = SemanticAnnotations::new();
    annotations.annotate("score", FieldSemantics::new(id("Score")).with_relation("measures", id("Domain")));
    let resolver = StaticResolver::new().with_concept(id("Score")).with_concept(id("Domain"));
    let doc = doc_map(vec![("score", Document::Integer(50))]);
    let result = validate_semantic(&schema, &annotations, &resolver, &doc).unwrap();
    assert!(!result.is_valid());
    assert!(result.issues().iter().any(|i| i.code == "semantic.relation.not-permitted"));
}

#[test]
fn validate_unknown_relation_target_and_not_permitted_can_both_surface_for_one_relation() {
    let schema = test_schema(vec![Field::new("score", Type::Integer)]);
    let mut annotations = SemanticAnnotations::new();
    annotations.annotate("score", FieldSemantics::new(id("Score")).with_relation("measures", id("Domain")));
    let resolver = StaticResolver::new().with_concept(id("Score"));
    let doc = doc_map(vec![("score", Document::Integer(50))]);
    let result = validate_semantic(&schema, &annotations, &resolver, &doc).unwrap();
    let codes: Vec<&str> = result.issues().iter().map(|i| i.code.as_str()).collect();
    assert!(codes.contains(&"semantic.relation.target-unknown"), "codes: {codes:?}");
    assert!(codes.contains(&"semantic.relation.not-permitted"), "codes: {codes:?}");
}

#[test]
fn directive_worked_example_field_passes_cleanly() {
    let schema = test_schema(vec![Field::new("score", Type::Integer)]);
    let mut annotations = SemanticAnnotations::new();
    annotations.annotate(
        "score",
        FieldSemantics::new(id("UNI.Assessment.Score"))
            .with_relation("measures", id("Assessment.Domain"))
            .with_relation("represents", id("ProjectQuality")),
    );
    let resolver = StaticResolver::new()
        .with_relation(id("UNI.Assessment.Score"), "measures", id("Assessment.Domain"))
        .with_relation(id("UNI.Assessment.Score"), "represents", id("ProjectQuality"));
    let doc = doc_map(vec![("score", Document::Integer(85))]);
    let result = validate_semantic(&schema, &annotations, &resolver, &doc).unwrap();
    assert!(result.is_valid(), "unexpected issues: {:?}", result.issues());
}

#[test]
fn validate_resolver_failure_becomes_a_soft_issue_not_a_hard_abort() {
    let schema = test_schema(vec![Field::new("score", Type::Integer), Field::new("other", Type::Integer)]);
    let mut annotations = SemanticAnnotations::new();
    annotations.annotate("score", FieldSemantics::new(id("Score")));
    annotations.annotate("other", FieldSemantics::new(id("Other")));
    let resolver = AlwaysFailsResolver;
    let doc = doc_map(vec![("score", Document::Integer(1)), ("other", Document::Integer(2))]);

    let result = validate_semantic(&schema, &annotations, &resolver, &doc).unwrap();
    assert!(!result.is_valid());
    let paths: Vec<String> = result.issues().iter().map(|i| i.path.to_string()).collect();
    assert!(paths.contains(&".score".to_string()), "paths: {paths:?}");
    assert!(paths.contains(&".other".to_string()), "paths: {paths:?}");
    assert!(result.issues().iter().all(|i| i.code == "semantic.resolver.unavailable"));
}

fn worked_schema() -> Schema {
    let contract = Contract::new("elci.uni", "assessment", SchemaVersion::new(1, 0, 0), 0).unwrap();
    Schema::new(
        contract,
        vec![
            Field::new("score", Type::Integer)
                .constraint(Constraint::Range { min: Some(0.0f64.to_bits()), max: Some(100.0f64.to_bits()) }),
            Field::new("notes", Type::String).required(false),
        ],
    )
    .unwrap()
}

fn worked_annotations() -> SemanticAnnotations {
    let mut annotations = SemanticAnnotations::new();
    annotations.annotate(
        "score",
        FieldSemantics::new(id("UNI.Assessment.Score"))
            .with_relation("measures", id("Assessment.Domain"))
            .with_relation("represents", id("ProjectQuality")),
    );
    annotations
}

fn doc(score: i64) -> Document {
    Document::Mapping(vec![("score".to_string(), Document::Integer(score))])
}

#[test]
fn directive_section_6_worked_example_passes_cleanly() {
    let schema = worked_schema();
    let annotations = worked_annotations();
    let resolver = StaticResolver::new()
        .with_relation(id("UNI.Assessment.Score"), "measures", id("Assessment.Domain"))
        .with_relation(id("UNI.Assessment.Score"), "represents", id("ProjectQuality"));

    let result = validate_semantic(&schema, &annotations, &resolver, &doc(85)).unwrap();
    assert!(result.is_valid(), "unexpected issues: {:?}", result.issues());
}

#[test]
fn directive_worked_example_unknown_concept_produces_an_issue() {
    let schema = worked_schema();
    let annotations = worked_annotations();
    let resolver = StaticResolver::new();

    let result = validate_semantic(&schema, &annotations, &resolver, &doc(85)).unwrap();
    assert!(!result.is_valid());
    assert!(result.issues().iter().any(|i| i.code == "semantic.concept.unknown"));
}

#[test]
fn directive_worked_example_unpermitted_relation_produces_an_issue() {
    let schema = worked_schema();
    let annotations = worked_annotations();
    let resolver = StaticResolver::new()
        .with_concept(id("UNI.Assessment.Score"))
        .with_concept(id("Assessment.Domain"))
        .with_concept(id("ProjectQuality"));

    let result = validate_semantic(&schema, &annotations, &resolver, &doc(85)).unwrap();
    assert!(!result.is_valid());
    let not_permitted = result.issues().iter().filter(|i| i.code == "semantic.relation.not-permitted").count();
    assert_eq!(not_permitted, 2, "both measures and represents should be flagged: {:?}", result.issues());
}

#[test]
fn directive_worked_example_unknown_relation_target_and_not_permitted_can_both_surface_for_one_relation() {
    let schema = worked_schema();
    let mut annotations = SemanticAnnotations::new();
    annotations.annotate(
        "score",
        FieldSemantics::new(id("UNI.Assessment.Score")).with_relation("measures", id("Assessment.Domain")),
    );
    let resolver = StaticResolver::new().with_concept(id("UNI.Assessment.Score"));

    let result = validate_semantic(&schema, &annotations, &resolver, &doc(85)).unwrap();
    let codes: Vec<&str> = result.issues().iter().map(|i| i.code.as_str()).collect();
    assert!(codes.contains(&"semantic.relation.target-unknown"), "codes: {codes:?}");
    assert!(codes.contains(&"semantic.relation.not-permitted"), "codes: {codes:?}");
}

#[test]
fn directive_worked_example_unannotated_field_is_silently_skipped() {
    let schema = worked_schema();
    let annotations = worked_annotations();
    let resolver = StaticResolver::new()
        .with_relation(id("UNI.Assessment.Score"), "measures", id("Assessment.Domain"))
        .with_relation(id("UNI.Assessment.Score"), "represents", id("ProjectQuality"));
    let document = Document::Mapping(vec![
        ("score".to_string(), Document::Integer(85)),
        ("notes".to_string(), Document::String("anything goes here".to_string())),
    ]);

    let result = validate_semantic(&schema, &annotations, &resolver, &document).unwrap();
    assert!(result.is_valid(), "unexpected issues: {:?}", result.issues());
}

#[test]
fn directive_worked_example_annotated_field_absent_from_document_is_silently_skipped() {
    let schema = worked_schema();
    let annotations = worked_annotations();
    let resolver = StaticResolver::new();
    let document = Document::Mapping(vec![]);

    let result = validate_semantic(&schema, &annotations, &resolver, &document).unwrap();
    assert!(result.is_valid(), "unexpected issues: {:?}", result.issues());
}

#[test]
fn annotation_naming_an_unknown_schema_field_is_a_hard_error() {
    let schema = worked_schema();
    let mut annotations = SemanticAnnotations::new();
    annotations.annotate("scoer", FieldSemantics::new(id("Typo")));
    let resolver = StaticResolver::new();

    let err = validate_semantic(&schema, &annotations, &resolver, &doc(85)).unwrap_err();
    match err {
        SemanticError::UnknownAnnotatedField { field } => assert_eq!(field, "scoer"),
    }
}

struct OutageResolver;

impl SemanticResolver for OutageResolver {
    fn concept_exists(&self, _id: &SemanticId) -> Result<bool, ResolverError> {
        Err(ResolverError::new("simulated outage"))
    }

    fn relation_permitted(&self, _from: &SemanticId, _relation: &str, _to: &SemanticId) -> Result<bool, ResolverError> {
        Err(ResolverError::new("simulated outage"))
    }
}

#[test]
fn directive_worked_example_resolver_failure_becomes_a_soft_issue_not_a_hard_abort() {
    let schema = worked_schema();
    let annotations = worked_annotations();
    let resolver = OutageResolver;

    let result = validate_semantic(&schema, &annotations, &resolver, &doc(85)).unwrap();
    assert!(!result.is_valid());
    assert!(
        result.issues().len() >= 3,
        "expected the concept check plus both relation checks to all run: {:?}",
        result.issues()
    );
    assert!(result.issues().iter().all(|i| i.code == "semantic.resolver.unavailable"));
}

#[test]
fn semantic_id_error_names_the_input() {
    let e = SemanticId::parse("1Score").unwrap_err();
    assert_eq!(e.input, "1Score");
    assert!(e.message().contains("1Score"));
}

#[test]
fn semantic_id_reasons_quote_the_segment_and_the_character() {
    let e = SemanticId::parse("UNI.1Score").unwrap_err();
    assert_eq!(e.reason, "segment \"1Score\" must start with an ASCII letter, found '1'");
    assert_eq!(
        e.message(),
        "invalid semantic identifier \"UNI.1Score\": segment \"1Score\" must start with an ASCII letter, found '1'"
    );
    let e = SemanticId::parse("Sco-re").unwrap_err();
    assert_eq!(e.reason, "segment \"Sco-re\" contains disallowed character '-'");
    let e = SemanticId::parse("UNI..Score").unwrap_err();
    assert_eq!(e.reason, "segment must not be empty");
    let e = SemanticId::parse("Score\n").unwrap_err();
    assert_eq!(e.reason, "segment \"Score\\n\" contains disallowed character '\\n'");
}

#[test]
fn semantic_result_builds_issues_from_given_answers() {
    let schema = test_schema(vec![Field::new("score", Type::Integer), Field::new("note", Type::String)]);
    let mut annotations = SemanticAnnotations::new();
    annotations.annotate("score", FieldSemantics::new(id("Score")).with_relation("measures", id("Domain")));
    let doc = doc_map(vec![("score", Document::Integer(50)), ("note", Document::String("x".to_string()))]);
    // score: concept exists; target unknown; relation check failed.
    let results = vec![vec![Ok(true), Ok(false), Err(ResolverError::new("down"))], vec![]];
    let result = semantic_result(&schema, &annotations, &doc, &results);
    let codes: Vec<&str> = result.issues().iter().map(|i| i.code.as_str()).collect();
    assert_eq!(codes, vec!["semantic.relation.target-unknown", "semantic.resolver.unavailable"]);
    assert_eq!(result.issues()[1].message, "could not check permission for relation \"measures\": down");
    // A missing answer counts as a yes.
    let result = semantic_result(&schema, &annotations, &doc, &vec![]);
    assert!(result.is_valid());
}

#[test]
fn annotate_chains() {
    let mut annotations = SemanticAnnotations::new();
    annotations.annotate("a", FieldSemantics::new(id("A"))).annotate("b", FieldSemantics::new(id("B")));
    assert_eq!(annotations.get("a").unwrap().concept, id("A"));
    assert_eq!(annotations.get("b").unwrap().concept, id("B"));
}

#[test]
fn semantic_id_grammar() {
    assert!(SemanticId::parse("Abc.d_1.X9").is_ok());
    assert!(SemanticId::parse("").is_err());
    assert!(SemanticId::parse("a..b").is_err());
    assert!(SemanticId::parse("9abc").is_err());
    assert!(SemanticId::parse("ab-c").is_err());
}
