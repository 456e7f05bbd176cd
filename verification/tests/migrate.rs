use obserde::contract::Contract;
use obserde::document::Document;
use obserde::errors::ErrorCode;
use obserde::graph::{MigrationGraph, PlanningError};
use obserde::migration::{Migration, MigrationError, SchemaId, Transform, ValidationPolicy};
use obserde::schema::{Constraint, Field, Schema, Type};
use obserde::version::SchemaVersion;

fn render(b: u64) -> String {
    f64::from_bits(b).to_string()
}

fn doc_map(entries: Vec<(&str, Document)>) -> Document {
    Document::Mapping(entries.into_iter().map(|(k, v)| (k.to_string(), v)).collect())
}

fn copy_entries(entries: &[(String, Document)]) -> Vec<(String, Document)> {
    entries.iter().map(|(k, v)| (k.clone(), v.copy())).collect()
}

/// Transforms of different types share one migration or graph as boxed
/// trait objects.
fn boxed<T: Transform + 'static>(t: T) -> Box<dyn Transform> {
    Box::new(t)
}

struct AddNote;

impl Transform for AddNote {
    fn transform(&self, doc: &Document) -> Result<Document, String> {
        match doc {
            Document::Mapping(entries) => {
                let mut entries = copy_entries(entries);
                entries.push(("note".to_string(), Document::String("migrated".to_string())));
                Ok(Document::Mapping(entries))
            }
            _ => Err("expected a map document".to_string()),
        }
    }
}

struct RemoveNote;

impl Transform for RemoveNote {
    fn transform(&self, doc: &Document) -> Result<Document, String> {
        match doc {
            Document::Mapping(entries) => Ok(Document::Mapping(
                entries.iter().filter(|(k, _)| k != "note").map(|(k, v)| (k.clone(), v.copy())).collect(),
            )),
            _ => Err("expected a map document".to_string()),
        }
    }
}

struct AlwaysFails;

impl Transform for AlwaysFails {
    fn transform(&self, _doc: &Document) -> Result<Document, String> {
        Err("boom".to_string())
    }
}

struct AddNoteAndDefaultScore;

impl Transform for AddNoteAndDefaultScore {
    fn transform(&self, doc: &Document) -> Result<Document, String> {
        match doc {
            Document::Mapping(entries) => {
                let mut entries = copy_entries(entries);
                if !entries.iter().any(|(k, _)| k == "score") {
                    entries.push(("score".to_string(), Document::Integer(0)));
                }
                entries.push(("note".to_string(), Document::String("migrated".to_string())));
                Ok(Document::Mapping(entries))
            }
            _ => Err("expected a map document".to_string()),
        }
    }
}

struct DropScore;

impl Transform for DropScore {
    fn transform(&self, _doc: &Document) -> Result<Document, String> {
        Ok(Document::Mapping(vec![]))
    }
}

struct Identity;

impl Transform for Identity {
    fn transform(&self, doc: &Document) -> Result<Document, String> {
        Ok(doc.copy())
    }
}

fn test_schema(version: SchemaVersion, fields: Vec<Field>) -> Schema {
    let contract = Contract::new("elci.test", "migrate", version, 0).unwrap();
    Schema::new(contract, fields).unwrap()
}

fn v1() -> Schema {
    test_schema(SchemaVersion::new(1, 0, 0), vec![Field::new("score", Type::Integer)])
}

fn v2() -> Schema {
    test_schema(
        SchemaVersion::new(2, 0, 0),
        vec![Field::new("score", Type::Integer), Field::new("note", Type::String).required(false)],
    )
}

#[test]
fn happy_path_forward_adds_note() {
    let migration = Migration::new("m1", SchemaVersion::new(1, 0, 0), v1(), v2(), AddNote);
    let doc = doc_map(vec![("score", Document::Integer(5))]);
    let result = migration.apply(&doc, &render).unwrap();
    assert_eq!(result.get("note"), Some(&Document::String("migrated".to_string())));
}

#[test]
fn happy_path_reverse_removes_note() {
    let migration = Migration::new("m1", SchemaVersion::new(1, 0, 0), v1(), v2(), boxed(AddNote)).with_reverse(boxed(RemoveNote));
    let forward_doc = doc_map(vec![("score", Document::Integer(5))]);
    let migrated = migration.apply(&forward_doc, &render).unwrap();
    let reversed = migration.apply_reverse(&migrated, &render).unwrap();
    assert_eq!(reversed, doc_map(vec![("score", Document::Integer(5))]));
}

#[test]
fn pre_validation_failed_when_input_missing_required_field() {
    let migration = Migration::new("m1", SchemaVersion::new(1, 0, 0), v1(), v2(), AddNote);
    let bad_doc = doc_map(vec![]);
    let err = migration.apply(&bad_doc, &render).unwrap_err();
    assert!(matches!(err, MigrationError::PreValidationFailed { direction: "forward", .. }));
}

#[test]
fn transform_failed_propagates_reason() {
    let migration = Migration::new("m1", SchemaVersion::new(1, 0, 0), v1(), v2(), AlwaysFails);
    let doc = doc_map(vec![("score", Document::Integer(5))]);
    let err = migration.apply(&doc, &render).unwrap_err();
    match err {
        MigrationError::TransformFailed { reason, direction: "forward", .. } => assert_eq!(reason, "boom"),
        other => panic!("expected TransformFailed, got {other:?}"),
    }
}

#[test]
fn post_validation_failed_is_the_no_silent_migrations_proof() {
    let migration = Migration::new("m1", SchemaVersion::new(1, 0, 0), v1(), v2(), DropScore);
    let doc = doc_map(vec![("score", Document::Integer(5))]);
    let err = migration.apply(&doc, &render).unwrap_err();
    assert!(matches!(err, MigrationError::PostValidationFailed { direction: "forward", .. }));
}

#[test]
fn post_only_skips_pre_validation_and_succeeds_when_output_is_valid() {
    let migration = Migration::new("m1", SchemaVersion::new(1, 0, 0), v1(), v2(), AddNoteAndDefaultScore)
        .with_policy(ValidationPolicy::PostOnly);
    let doc = doc_map(vec![]);
    let result = migration.apply(&doc, &render).unwrap();
    assert_eq!(result.get("score"), Some(&Document::Integer(0)));
    assert_eq!(result.get("note"), Some(&Document::String("migrated".to_string())));
}

#[test]
fn post_only_still_enforces_post_validation() {
    let migration =
        Migration::new("m1", SchemaVersion::new(1, 0, 0), v1(), v2(), DropScore).with_policy(ValidationPolicy::PostOnly);
    let bad_doc = doc_map(vec![]);
    let err = migration.apply(&bad_doc, &render).unwrap_err();
    assert!(matches!(err, MigrationError::PostValidationFailed { direction: "forward", .. }));
}

#[test]
fn not_reversible_when_no_reverse_transform_registered() {
    let migration = Migration::new("m1", SchemaVersion::new(1, 0, 0), v1(), v2(), AddNote);
    let doc = doc_map(vec![("score", Document::Integer(5)), ("note", Document::String("x".into()))]);
    let err = migration.apply_reverse(&doc, &render).unwrap_err();
    assert!(matches!(err, MigrationError::NotReversible { .. }));
}

#[test]
fn reverse_is_always_strict_even_when_policy_is_post_only() {
    let migration = Migration::new("m1", SchemaVersion::new(1, 0, 0), v1(), v2(), boxed(AddNote))
        .with_policy(ValidationPolicy::PostOnly)
        .with_reverse(boxed(RemoveNote));
    let bad_doc = doc_map(vec![("note", Document::String("x".into()))]);
    let err = migration.apply_reverse(&bad_doc, &render).unwrap_err();
    assert!(matches!(err, MigrationError::PreValidationFailed { direction: "reverse", .. }));
}

#[test]
fn validation_unavailable_propagates_unrecognized_pattern_grammar() {
    let source = test_schema(
        SchemaVersion::new(1, 0, 0),
        vec![Field::new("id", Type::String).constraint(Constraint::Pattern { grammar: "email".to_string() })],
    );
    let migration = Migration::new("m1", SchemaVersion::new(1, 0, 0), source, v2(), AddNote);
    let doc = doc_map(vec![("id", Document::String("x".into()))]);
    let err = migration.apply(&doc, &render).unwrap_err();
    assert!(matches!(err, MigrationError::ValidationUnavailable { direction: "forward", phase: "pre", .. }));
}

fn fixture_contract(revision: u32) -> Contract {
    Contract::new("elci.test", "fixture", SchemaVersion::new(1, 0, 0), revision).unwrap()
}

#[test]
fn from_contract_drops_revision() {
    let id = SchemaId::from(&fixture_contract(7));
    assert_eq!(id.namespace(), "elci.test");
    assert_eq!(id.name(), "fixture");
    assert_eq!(id.version(), SchemaVersion::new(1, 0, 0));
}

#[test]
fn contracts_differing_only_in_revision_produce_equal_schema_ids() {
    assert_eq!(SchemaId::from(&fixture_contract(0)), SchemaId::from(&fixture_contract(1)));
}

#[test]
fn display_format() {
    let id = SchemaId::from(&fixture_contract(0));
    assert_eq!(id.to_string(), "elci.test.fixture/1.0.0");
}

fn graph_schema(version: SchemaVersion, fields: Vec<Field>) -> Schema {
    let contract = Contract::new("elci.test", "graph", version, 0).unwrap();
    Schema::new(contract, fields).unwrap()
}

fn graph_id(major: u32) -> SchemaId {
    SchemaId::from(graph_schema(SchemaVersion::new(major, 0, 0), vec![]).contract())
}

fn graph_migration(name: &str, from: u32, to: u32) -> Migration<Identity> {
    Migration::new(
        name,
        SchemaVersion::new(1, 0, 0),
        graph_schema(SchemaVersion::new(from, 0, 0), vec![]),
        graph_schema(SchemaVersion::new(to, 0, 0), vec![]),
        Identity,
    )
}

#[test]
fn register_succeeds_for_consistent_schemas() {
    let mut graph = MigrationGraph::new();
    assert!(graph.register(graph_migration("m1", 1, 2)).is_ok());
    assert_eq!(graph.migrations().len(), 1);
}

#[test]
fn register_detects_schema_id_conflict() {
    let mut graph = MigrationGraph::new();
    graph.register(graph_migration("m1", 1, 2)).unwrap();

    let conflicting_v2 = graph_schema(SchemaVersion::new(2, 0, 0), vec![Field::new("extra", Type::Bool)]);
    let m2 = Migration::new(
        "m2",
        SchemaVersion::new(1, 0, 0),
        conflicting_v2,
        graph_schema(SchemaVersion::new(3, 0, 0), vec![]),
        Identity,
    );
    let err = graph.register(m2).unwrap_err();
    assert!(matches!(err, MigrationError::SchemaIdConflict { .. }));
}

#[test]
fn plan_from_equals_to_is_the_empty_plan() {
    let graph: MigrationGraph<Identity> = MigrationGraph::new();
    let plan = graph.plan(&graph_id(1), &graph_id(1)).ok().unwrap();
    assert!(plan.is_empty());
}

#[test]
fn plan_missing_migration() {
    let mut graph = MigrationGraph::new();
    graph.register(graph_migration("m1", 1, 2)).unwrap();
    let err = graph.plan(&graph_id(1), &graph_id(99)).err().unwrap();
    assert!(matches!(err, PlanningError::MissingMigration { .. }));
}

#[test]
fn plan_single_hop() {
    let mut graph = MigrationGraph::new();
    graph.register(graph_migration("m1", 1, 2)).unwrap();
    let plan = graph.plan(&graph_id(1), &graph_id(2)).ok().unwrap();
    assert_eq!(plan.len(), 1);
    assert!(!plan.steps()[0].reverse);
}

fn versioned_schema(version: u32) -> Schema {
    let contract = Contract::new("elci.assessment", "diamond", SchemaVersion::new(version, 0, 0), 0).unwrap();
    Schema::new(contract, vec![Field::new("value", Type::Integer)]).unwrap()
}

fn build_diamond() -> MigrationGraph<Identity> {
    let mut graph = MigrationGraph::new();
    for (name, from, to) in [("v1_to_v2", 1, 2), ("v1_to_v3", 1, 3), ("v2_to_v4", 2, 4), ("v3_to_v4", 3, 4)] {
        graph
            .register(Migration::new(name, SchemaVersion::new(1, 0, 0), versioned_schema(from), versioned_schema(to), Identity))
            .unwrap();
    }
    graph
}

fn diamond_schema_id(version: u32) -> SchemaId {
    SchemaId::from(versioned_schema(version).contract())
}

#[test]
fn available_paths_finds_both_diamond_routes() {
    let graph = build_diamond();
    let paths = graph.available_paths(&diamond_schema_id(1), &diamond_schema_id(4));
    assert_eq!(paths.len(), 2, "expected exactly the two diamond routes: {}", paths.len());
    assert!(paths.iter().all(|p| p.len() == 2));
}

#[test]
fn plan_v1_to_v4_is_ambiguous() {
    let graph = build_diamond();
    let err = graph.plan(&diamond_schema_id(1), &diamond_schema_id(4)).err().unwrap();
    match err {
        PlanningError::AmbiguousMigration { candidates, .. } => assert_eq!(candidates.len(), 2),
        other => panic!("expected AmbiguousMigration, got {}", other.code()),
    }
}

#[test]
fn plan_v1_to_v2_is_the_unique_single_hop() {
    let graph = build_diamond();
    let plan = graph.plan(&diamond_schema_id(1), &diamond_schema_id(2)).ok().unwrap();
    assert_eq!(plan.len(), 1);
    assert_eq!(plan.steps()[0].migration.id(), "v1_to_v2");
}

#[test]
fn plan_missing_migration_for_an_unregistered_version() {
    let graph = build_diamond();
    let unregistered = diamond_schema_id(99);
    let err = graph.plan(&diamond_schema_id(1), &unregistered).err().unwrap();
    assert!(matches!(err, PlanningError::MissingMigration { .. }));
}

#[test]
fn plan_v1_to_v1_is_the_zero_step_plan() {
    let graph = build_diamond();
    let plan = graph.plan(&diamond_schema_id(1), &diamond_schema_id(1)).ok().unwrap();
    assert!(plan.is_empty());
}

#[test]
fn executing_one_of_the_two_diamond_routes_end_to_end() {
    let graph = build_diamond();
    let paths = graph.available_paths(&diamond_schema_id(1), &diamond_schema_id(4));
    let doc = Document::Mapping(vec![("value".to_string(), Document::Integer(42))]);
    let result = paths[0].execute(&doc, &render).unwrap();
    assert_eq!(result, doc);
}

fn reversible_schema(version: u32) -> Schema {
    let contract = Contract::new("elci.reversible", "fixture", SchemaVersion::new(version, 0, 0), 0).unwrap();
    Schema::new(contract, vec![Field::new("value", Type::Integer)]).unwrap()
}

fn reversible_id(version: u32) -> SchemaId {
    SchemaId::from(reversible_schema(version).contract())
}

#[test]
fn plan_finds_the_reverse_edge_of_a_reversible_migration() {
    let mut graph = MigrationGraph::new();
    graph
        .register(
            Migration::new("a_to_b", SchemaVersion::new(1, 0, 0), reversible_schema(1), reversible_schema(2), Identity)
                .with_reverse(Identity),
        )
        .unwrap();

    let plan = graph.plan(&reversible_id(2), &reversible_id(1)).ok().unwrap();
    assert_eq!(plan.len(), 1);
    assert!(plan.steps()[0].reverse);
    assert!(plan.to_string().contains("(reverse)"));

    let doc = Document::Mapping(vec![("value".to_string(), Document::Integer(7))]);
    assert_eq!(plan.execute(&doc, &render).unwrap(), doc);
}

#[test]
fn shortest_path_prefers_fewer_reverse_hops_among_ties() {
    let mut graph = MigrationGraph::new();
    let m = |name: &str, from: u32, to: u32| {
        Migration::new(name, SchemaVersion::new(1, 0, 0), reversible_schema(from), reversible_schema(to), Identity)
    };
    graph.register(m("v1_to_v2", 1, 2)).unwrap();
    graph.register(m("v2_to_v4", 2, 4)).unwrap();
    graph.register(m("v1_to_v3", 1, 3)).unwrap();
    graph.register(m("v4_to_v3", 4, 3).with_reverse(Identity)).unwrap();

    let plan = graph.plan(&reversible_id(1), &reversible_id(4)).ok().unwrap();
    assert_eq!(plan.len(), 2);
    assert!(plan.steps().iter().all(|s| !s.reverse), "expected the all-forward route to win the tie-break");
}

// Further behaviour of migrations, plans and the graph.

#[test]
fn plan_text_names_contracts_and_migrations() {
    let mut graph = MigrationGraph::new();
    graph
        .register(
            Migration::new("a_to_b", SchemaVersion::new(1, 0, 0), reversible_schema(1), reversible_schema(2), Identity)
                .with_reverse(Identity),
        )
        .unwrap();
    let forward = graph.plan(&reversible_id(1), &reversible_id(2)).ok().unwrap();
    assert_eq!(forward.to_string(), "elci.reversible.fixture/1.0.0+0 --a_to_b--> elci.reversible.fixture/2.0.0+0\n");
    let back = graph.plan(&reversible_id(2), &reversible_id(1)).ok().unwrap();
    assert_eq!(
        back.to_string(),
        "elci.reversible.fixture/2.0.0+0 --a_to_b (reverse)--> elci.reversible.fixture/1.0.0+0\n"
    );
    let none = graph.plan(&reversible_id(1), &reversible_id(1)).ok().unwrap();
    assert_eq!(none.to_string(), "(no migration needed)\n");
}

#[test]
fn available_paths_from_a_node_to_itself_lists_the_empty_path_then_cycles() {
    let mut graph = MigrationGraph::new();
    graph
        .register(
            Migration::new("a_to_b", SchemaVersion::new(1, 0, 0), reversible_schema(1), reversible_schema(2), Identity)
                .with_reverse(Identity),
        )
        .unwrap();
    let paths = graph.available_paths(&reversible_id(1), &reversible_id(1));
    assert_eq!(paths.len(), 2);
    assert!(paths[0].is_empty());
    assert_eq!(paths[1].len(), 2);
    assert!(!paths[1].steps()[0].reverse);
    assert!(paths[1].steps()[1].reverse);
}

#[test]
fn paths_come_in_registration_order() {
    let graph = build_diamond();
    let paths = graph.available_paths(&diamond_schema_id(1), &diamond_schema_id(4));
    assert_eq!(paths[0].steps()[0].migration.id(), "v1_to_v2");
    assert_eq!(paths[1].steps()[0].migration.id(), "v1_to_v3");
}

#[test]
fn a_failing_hop_stops_the_plan_with_its_error() {
    let mut graph = MigrationGraph::new();
    graph
        .register(Migration::new("m1", SchemaVersion::new(1, 0, 0), reversible_schema(1), reversible_schema(2), DropScore))
        .unwrap();
    let plan = graph.plan(&reversible_id(1), &reversible_id(2)).ok().unwrap();
    let doc = Document::Mapping(vec![("value".to_string(), Document::Integer(7))]);
    let err = plan.execute(&doc, &render).unwrap_err();
    assert!(matches!(err, MigrationError::PostValidationFailed { direction: "forward", .. }));
    assert_eq!(err.code(), "migrate.validation.post-failed");
}

#[test]
fn conflict_error_names_the_node_and_both_migrations() {
    let mut graph = MigrationGraph::new();
    graph.register(graph_migration("m1", 1, 2)).unwrap();
    let conflicting = graph_schema(SchemaVersion::new(1, 0, 0), vec![Field::new("x", Type::Integer)]);
    let m2 = Migration::new("m2", SchemaVersion::new(1, 0, 0), conflicting, graph_schema(SchemaVersion::new(5, 0, 0), vec![]), Identity);
    let err = graph.register(m2).unwrap_err();
    assert_eq!(err.code(), "migrate.graph.schema-id-conflict");
    assert_eq!(
        err.message(),
        "schema elci.test.graph/1.0.0 is registered with conflicting structure by migrations \"m2\" and \"m1\""
    );
    assert_eq!(graph.migrations().len(), 1);
}

#[test]
fn equal_range_bounds_do_not_conflict() {
    let mut graph = MigrationGraph::new();
    let with = |v: u32, x: f64| {
        graph_schema(
            SchemaVersion::new(v, 0, 0),
            vec![Field::new("s", Type::Float).constraint(Constraint::Range { min: Some(x.to_bits()), max: None })],
        )
    };
    graph.register(Migration::new("a", SchemaVersion::new(1, 0, 0), with(1, 0.0), with(2, 1.0), Identity)).unwrap();
    // -0.0 and 0.0 are equal doubles.
    assert!(graph.register(Migration::new("b", SchemaVersion::new(1, 0, 0), with(1, -0.0), with(3, 1.0), Identity)).is_ok());
}

#[test]
fn migration_getters() {
    let m = Migration::new("m1", SchemaVersion::new(3, 1, 0), v1(), v2(), boxed(AddNote));
    assert_eq!(m.id(), "m1");
    assert_eq!(m.version(), SchemaVersion::new(3, 1, 0));
    assert_eq!(m.source().contract().version(), SchemaVersion::new(1, 0, 0));
    assert_eq!(m.target().contract().version(), SchemaVersion::new(2, 0, 0));
    assert_eq!(m.policy(), ValidationPolicy::Strict);
    assert!(!m.is_reversible());
    let m = m.with_reverse(boxed(RemoveNote)).with_policy(ValidationPolicy::PostOnly);
    assert!(m.is_reversible());
    assert_eq!(m.policy(), ValidationPolicy::PostOnly);
}

#[test]
fn migration_error_messages() {
    let migration = Migration::new("m1", SchemaVersion::new(1, 0, 0), v1(), v2(), AlwaysFails);
    let err = migration.apply(&doc_map(vec![("score", Document::Integer(5))]), &render).unwrap_err();
    assert_eq!(err.message(), "migration \"m1\" forward transform failed: boom");
    let err = migration.apply_reverse(&doc_map(vec![]), &render).unwrap_err();
    assert_eq!(err.message(), "migration \"m1\" has no reverse transform");
    assert_eq!(err.code(), "migrate.reverse.unavailable");
}

#[test]
fn planning_error_messages() {
    let graph = build_diamond();
    let err = graph.plan(&diamond_schema_id(1), &diamond_schema_id(99)).err().unwrap();
    assert_eq!(err.code(), "migrate.plan.missing");
    assert_eq!(err.message(), "no migration path from elci.assessment.diamond/1.0.0 to elci.assessment.diamond/99.0.0");
    let err = graph.plan(&diamond_schema_id(1), &diamond_schema_id(4)).err().unwrap();
    assert_eq!(err.code(), "migrate.plan.ambiguous");
}
