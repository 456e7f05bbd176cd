use obserde::compat::{analyze, classify_level, diff, CompatibilityLevel, DiffEntry, DiffKind};
use obserde::contract::Contract;
use obserde::schema::{Constraint, Field, Schema, Type};
use obserde::version::SchemaVersion;

fn render(b: u64) -> String {
    f64::from_bits(b).to_string()
}

fn range(min: Option<f64>, max: Option<f64>) -> Constraint {
    Constraint::Range { min: min.map(f64::to_bits), max: max.map(f64::to_bits) }
}

fn contract(version: (u32, u32, u32)) -> Contract {
    Contract::new("elci.test", "fixture", SchemaVersion::new(version.0, version.1, version.2), 0).unwrap()
}

fn schema(version: (u32, u32, u32), fields: Vec<Field>) -> Schema {
    Schema::new(contract(version), fields).unwrap()
}

#[test]
fn diff_is_reflexive() {
    let s = schema((1, 0, 0), vec![Field::new("score", Type::Integer)]);
    assert!(diff(&s, &s, &render).is_identical());
}

#[test]
fn field_added() {
    let before = schema((1, 0, 0), vec![]);
    let after = schema((2, 0, 0), vec![Field::new("score", Type::Integer)]);
    let d = diff(&before, &after, &render);
    assert_eq!(d.entries().len(), 1);
    assert_eq!(d.entries()[0].kind, DiffKind::FieldAdded);
    assert_eq!(d.entries()[0].path.to_string(), ".score");
}

#[test]
fn field_removed() {
    let before = schema((1, 0, 0), vec![Field::new("legacy", Type::Integer)]);
    let after = schema((2, 0, 0), vec![]);
    let d = diff(&before, &after, &render);
    assert_eq!(d.entries().len(), 1);
    assert_eq!(d.entries()[0].kind, DiffKind::FieldRemoved);
    assert_eq!(d.entries()[0].path.to_string(), ".legacy");
}

#[test]
fn type_changed() {
    let before = schema((1, 0, 0), vec![Field::new("score", Type::Integer)]);
    let after = schema((2, 0, 0), vec![Field::new("score", Type::Float)]);
    let d = diff(&before, &after, &render);
    assert_eq!(d.entries().len(), 1);
    assert_eq!(d.entries()[0].kind, DiffKind::TypeChanged);
}

#[test]
fn map_key_only_type_change_is_not_a_diff() {
    let before = schema((1, 0, 0), vec![Field::new("scores", Type::map(Type::String, Type::Integer))]);
    let after = schema((2, 0, 0), vec![Field::new("scores", Type::map(Type::Integer, Type::Integer))]);
    assert!(diff(&before, &after, &render).is_identical());
}

#[test]
fn nested_map_key_only_type_change_is_not_a_diff() {
    let before = schema((1, 0, 0), vec![Field::new("scores", Type::list(Type::map(Type::String, Type::Integer)))]);
    let after = schema((2, 0, 0), vec![Field::new("scores", Type::list(Type::map(Type::Integer, Type::Integer)))]);
    assert!(diff(&before, &after, &render).is_identical());
}

#[test]
fn required_tightened_and_relaxed() {
    let before = schema((1, 0, 0), vec![Field::new("x", Type::Integer).required(false)]);
    let after = schema((2, 0, 0), vec![Field::new("x", Type::Integer).required(true)]);
    let d = diff(&before, &after, &render);
    assert_eq!(d.entries()[0].kind, DiffKind::RequiredChanged);
    assert_eq!(d.entries()[0].before.as_deref(), Some("false"));
    assert_eq!(d.entries()[0].after.as_deref(), Some("true"));

    assert!(diff(&after, &before, &render).entries()[0].kind == DiffKind::RequiredChanged);
}

#[test]
fn range_added_removed_and_bound_changed() {
    let no_range = schema((1, 0, 0), vec![Field::new("score", Type::Integer)]);
    let with_range =
        schema((2, 0, 0), vec![Field::new("score", Type::Integer).constraint(range(Some(0.0), Some(100.0)))]);
    assert_eq!(diff(&no_range, &with_range, &render).entries()[0].kind, DiffKind::ConstraintAdded);
    assert_eq!(diff(&with_range, &no_range, &render).entries()[0].kind, DiffKind::ConstraintRemoved);

    let narrowed = schema((3, 0, 0), vec![Field::new("score", Type::Integer).constraint(range(Some(0.0), Some(10.0)))]);
    let d = diff(&with_range, &narrowed, &render);
    assert_eq!(d.entries().len(), 1);
    assert_eq!(d.entries()[0].kind, DiffKind::ConstraintChanged);
    assert_eq!(d.entries()[0].path.to_string(), ".score.maximum");
    assert_eq!(d.entries()[0].before.as_deref(), Some("100"));
    assert_eq!(d.entries()[0].after.as_deref(), Some("10"));
}

#[test]
fn two_range_constraints_are_folded_into_one_envelope() {
    let before = schema(
        (1, 0, 0),
        vec![Field::new("score", Type::Integer)
            .constraint(range(Some(0.0), Some(100.0)))
            .constraint(range(Some(10.0), Some(200.0)))],
    );
    let after = schema((2, 0, 0), vec![Field::new("score", Type::Integer).constraint(range(Some(10.0), Some(100.0)))]);
    assert!(diff(&before, &after, &render).is_identical());

    let narrower = schema((3, 0, 0), vec![Field::new("score", Type::Integer).constraint(range(Some(10.0), Some(50.0)))]);
    let d = diff(&before, &narrower, &render);
    assert_eq!(d.entries().len(), 1);
    assert_eq!(d.entries()[0].path.to_string(), ".score.maximum");
    assert_eq!(d.entries()[0].before.as_deref(), Some("100"));
    assert_eq!(d.entries()[0].after.as_deref(), Some("50"));
}

#[test]
fn length_added_removed_and_bound_changed() {
    let before = schema(
        (1, 0, 0),
        vec![Field::new("summary", Type::String).constraint(Constraint::Length { min: None, max: Some(200) })],
    );
    let after = schema(
        (2, 0, 0),
        vec![Field::new("summary", Type::String).constraint(Constraint::Length { min: None, max: Some(50) })],
    );
    let d = diff(&before, &after, &render);
    assert_eq!(d.entries()[0].path.to_string(), ".summary.maximum");
    assert_eq!(d.entries()[0].before.as_deref(), Some("200"));
    assert_eq!(d.entries()[0].after.as_deref(), Some("50"));
}

#[test]
fn non_empty_added_and_removed() {
    let without = schema((1, 0, 0), vec![Field::new("tags", Type::String)]);
    let with = schema((2, 0, 0), vec![Field::new("tags", Type::String).constraint(Constraint::NonEmpty)]);
    assert_eq!(diff(&without, &with, &render).entries()[0].kind, DiffKind::ConstraintAdded);
    assert_eq!(diff(&with, &without, &render).entries()[0].kind, DiffKind::ConstraintRemoved);
}

#[test]
fn pattern_added_and_removed() {
    let without = schema((1, 0, 0), vec![Field::new("id", Type::String)]);
    let with = schema(
        (2, 0, 0),
        vec![Field::new("id", Type::String).constraint(Constraint::Pattern { grammar: "identifier".to_string() })],
    );
    assert_eq!(diff(&without, &with, &render).entries()[0].kind, DiffKind::ConstraintAdded);
    assert_eq!(diff(&with, &without, &render).entries()[0].kind, DiffKind::ConstraintRemoved);
}

#[test]
fn pattern_grammar_swap_is_added_plus_removed() {
    let before = schema(
        (1, 0, 0),
        vec![Field::new("id", Type::String).constraint(Constraint::Pattern { grammar: "identifier".to_string() })],
    );
    let after = schema(
        (2, 0, 0),
        vec![Field::new("id", Type::String).constraint(Constraint::Pattern { grammar: "email".to_string() })],
    );
    let d = diff(&before, &after, &render);
    assert_eq!(d.entries().len(), 2);
    assert!(d.entries().iter().any(|e| e.kind == DiffKind::ConstraintAdded));
    assert!(d.entries().iter().any(|e| e.kind == DiffKind::ConstraintRemoved));
}

#[test]
fn custom_added_removed_and_changed() {
    let without = schema((1, 0, 0), vec![Field::new("x", Type::Integer)]);
    let with = schema(
        (2, 0, 0),
        vec![Field::new("x", Type::Integer)
            .constraint(Constraint::Custom { name: "checksum".to_string(), description: "must match".to_string() })],
    );
    assert_eq!(diff(&without, &with, &render).entries()[0].kind, DiffKind::ConstraintAdded);
    assert_eq!(diff(&with, &without, &render).entries()[0].kind, DiffKind::ConstraintRemoved);
}

#[test]
fn description_changed() {
    let before = schema((1, 0, 0), vec![Field::new("x", Type::Integer).description("old")]);
    let after = schema((2, 0, 0), vec![Field::new("x", Type::Integer).description("new")]);
    let d = diff(&before, &after, &render);
    assert_eq!(d.entries().len(), 1);
    assert_eq!(d.entries()[0].kind, DiffKind::DescriptionChanged);
}

#[test]
fn display_groups_by_added_removed_changed() {
    let before = schema(
        (1, 0, 0),
        vec![
            Field::new("legacy_score", Type::Integer),
            Field::new("score", Type::Integer).constraint(range(Some(0.0), Some(100.0))),
        ],
    );
    let after = schema(
        (2, 0, 0),
        vec![
            Field::new("provenance", Type::String).required(false),
            Field::new("score", Type::Integer).constraint(range(Some(0.0), Some(10.0))),
        ],
    );
    let rendered = diff(&before, &after, &render).to_string();
    assert_eq!(rendered, "ADDED\n  .provenance\n\nREMOVED\n  .legacy_score\n\nCHANGED\n  .score.maximum\n  100 → 10\n");
}

#[test]
fn identical_schemas_report_identical() {
    let s = schema((1, 0, 0), vec![Field::new("x", Type::Integer)]);
    let report = analyze(&s, &s, &render);
    assert_eq!(report.level, CompatibilityLevel::Identical);
    assert!(report.is_compatible());
    assert!(report.findings().is_empty());
}

#[test]
fn field_added_required_is_breaking_optional_is_compatible() {
    let before = schema((1, 0, 0), vec![]);
    let required = schema((2, 0, 0), vec![Field::new("x", Type::Integer)]);
    assert_eq!(analyze(&before, &required, &render).level, CompatibilityLevel::Breaking);

    let optional = schema((2, 0, 0), vec![Field::new("x", Type::Integer).required(false)]);
    let report = analyze(&before, &optional, &render);
    assert_eq!(report.level, CompatibilityLevel::Compatible);
    assert!(report.is_compatible());
}

#[test]
fn field_removed_is_always_breaking() {
    let before = schema((1, 0, 0), vec![Field::new("legacy", Type::Integer).required(false)]);
    let after = schema((2, 0, 0), vec![]);
    assert_eq!(analyze(&before, &after, &render).level, CompatibilityLevel::Breaking);
}

#[test]
fn type_changed_is_breaking() {
    let before = schema((1, 0, 0), vec![Field::new("x", Type::Integer)]);
    let after = schema((2, 0, 0), vec![Field::new("x", Type::Float)]);
    assert_eq!(analyze(&before, &after, &render).level, CompatibilityLevel::Breaking);
}

#[test]
fn map_key_only_type_change_is_compatible() {
    let before = schema((1, 0, 0), vec![Field::new("m", Type::map(Type::String, Type::Integer))]);
    let after = schema((2, 0, 0), vec![Field::new("m", Type::map(Type::Integer, Type::Integer))]);
    let report = analyze(&before, &after, &render);
    assert_eq!(report.level, CompatibilityLevel::Identical);
}

#[test]
fn required_tightened_is_breaking_relaxed_is_compatible() {
    let optional = schema((1, 0, 0), vec![Field::new("x", Type::Integer).required(false)]);
    let required = schema((2, 0, 0), vec![Field::new("x", Type::Integer).required(true)]);
    assert_eq!(analyze(&optional, &required, &render).level, CompatibilityLevel::Breaking);
    assert_eq!(analyze(&required, &optional, &render).level, CompatibilityLevel::Compatible);
}

#[test]
fn range_length_non_empty_added_are_breaking() {
    let bare = schema((1, 0, 0), vec![Field::new("x", Type::Integer)]);
    let with_range = schema((2, 0, 0), vec![Field::new("x", Type::Integer).constraint(range(Some(0.0), Some(100.0)))]);
    assert_eq!(analyze(&bare, &with_range, &render).level, CompatibilityLevel::Breaking);

    let bare_str = schema((1, 0, 0), vec![Field::new("s", Type::String)]);
    let with_length =
        schema((2, 0, 0), vec![Field::new("s", Type::String).constraint(Constraint::Length { min: None, max: Some(10) })]);
    assert_eq!(analyze(&bare_str, &with_length, &render).level, CompatibilityLevel::Breaking);

    let with_non_empty = schema((2, 0, 0), vec![Field::new("s", Type::String).constraint(Constraint::NonEmpty)]);
    assert_eq!(analyze(&bare_str, &with_non_empty, &render).level, CompatibilityLevel::Breaking);
}

#[test]
fn pattern_identifier_added_is_breaking() {
    let bare = schema((1, 0, 0), vec![Field::new("id", Type::String)]);
    let with_pattern = schema(
        (2, 0, 0),
        vec![Field::new("id", Type::String).constraint(Constraint::Pattern { grammar: "identifier".to_string() })],
    );
    assert_eq!(analyze(&bare, &with_pattern, &render).level, CompatibilityLevel::Breaking);
}

#[test]
fn pattern_unrecognized_grammar_added_is_breaking_with_distinct_reason() {
    let bare = schema((1, 0, 0), vec![Field::new("id", Type::String)]);
    let with_pattern = schema(
        (2, 0, 0),
        vec![Field::new("id", Type::String).constraint(Constraint::Pattern { grammar: "email".to_string() })],
    );
    let report = analyze(&bare, &with_pattern, &render);
    assert_eq!(report.level, CompatibilityLevel::Breaking);
    assert!(report.findings()[0].reason.contains("does not recognize"));
}

#[test]
fn custom_constraint_changes_are_always_compatible() {
    let bare = schema((1, 0, 0), vec![Field::new("x", Type::Integer)]);
    let with_custom = schema(
        (2, 0, 0),
        vec![Field::new("x", Type::Integer)
            .constraint(Constraint::Custom { name: "checksum".to_string(), description: "must match".to_string() })],
    );
    assert_eq!(analyze(&bare, &with_custom, &render).level, CompatibilityLevel::Compatible);
    assert_eq!(analyze(&with_custom, &bare, &render).level, CompatibilityLevel::Compatible);
}

#[test]
fn constraint_removed_is_always_compatible() {
    let with_range = schema((1, 0, 0), vec![Field::new("x", Type::Integer).constraint(range(Some(0.0), Some(100.0)))]);
    let bare = schema((2, 0, 0), vec![Field::new("x", Type::Integer)]);
    assert_eq!(analyze(&with_range, &bare, &render).level, CompatibilityLevel::Compatible);
}

#[test]
fn range_narrowed_is_breaking_widened_is_compatible() {
    let wide = schema((1, 0, 0), vec![Field::new("score", Type::Integer).constraint(range(Some(0.0), Some(100.0)))]);
    let narrow = schema((2, 0, 0), vec![Field::new("score", Type::Integer).constraint(range(Some(0.0), Some(10.0)))]);
    let report = analyze(&wide, &narrow, &render);
    assert_eq!(report.level, CompatibilityLevel::Breaking);
    assert_eq!(report.findings()[0].previous.as_deref(), Some("integer [0, 100]"));
    assert_eq!(report.findings()[0].new.as_deref(), Some("integer [0, 10]"));

    assert_eq!(analyze(&narrow, &wide, &render).level, CompatibilityLevel::Compatible);
}

#[test]
fn description_changed_is_compatible() {
    let before = schema((1, 0, 0), vec![Field::new("x", Type::Integer).description("old")]);
    let after = schema((2, 0, 0), vec![Field::new("x", Type::Integer).description("new")]);
    assert_eq!(analyze(&before, &after, &render).level, CompatibilityLevel::Compatible);
}

#[test]
fn one_breaking_finding_dominates_the_aggregate() {
    let before =
        schema((1, 0, 0), vec![Field::new("a", Type::Integer).description("old"), Field::new("legacy", Type::Integer)]);
    let after = schema((2, 0, 0), vec![Field::new("a", Type::Integer).description("new")]);
    assert_eq!(analyze(&before, &after, &render).level, CompatibilityLevel::Breaking);
}

#[test]
fn display_renders_breaking_report_with_reason_previous_new_impact() {
    let wide = schema((1, 0, 0), vec![Field::new("score", Type::Integer).constraint(range(Some(0.0), Some(100.0)))]);
    let narrow = schema((2, 0, 0), vec![Field::new("score", Type::Integer).constraint(range(Some(0.0), Some(10.0)))]);
    let rendered = analyze(&wide, &narrow, &render).to_string();
    assert!(rendered.starts_with("BREAKING\n"));
    assert!(rendered.contains("Reason:\n  .score.maximum\n"));
    assert!(rendered.contains("Previous:\n  integer [0, 100]\n"));
    assert!(rendered.contains("New:\n  integer [0, 10]\n"));
    assert!(rendered.contains("Impact:\n"));
    assert!(rendered.contains("Required action:\n"));
}

#[test]
fn display_renders_compatible_report_as_terse_lines() {
    let before = schema((1, 0, 0), vec![]);
    let after = schema((2, 0, 0), vec![Field::new("provenance", Type::String).required(false)]);
    let rendered = analyze(&before, &after, &render).to_string();
    assert_eq!(rendered, "COMPATIBLE\n  .provenance — field \"provenance\" was added\n");
}

fn v1() -> Schema {
    let contract = Contract::new("elci.assessment", "assessment", SchemaVersion::new(1, 0, 0), 0).unwrap();
    Schema::new(
        contract,
        vec![
            Field::new("score", Type::Integer).constraint(range(Some(0.0), Some(100.0))),
            Field::new("legacy_score", Type::Integer).required(false),
        ],
    )
    .unwrap()
}

fn v2() -> Schema {
    let contract = Contract::new("elci.assessment", "assessment", SchemaVersion::new(2, 0, 0), 0).unwrap();
    Schema::new(
        contract,
        vec![
            Field::new("provenance", Type::String).required(false),
            Field::new("evidence", Type::String).required(true),
            Field::new("score", Type::Integer).constraint(range(Some(0.0), Some(10.0))),
        ],
    )
    .unwrap()
}

#[test]
fn directive_section_16_worked_example_is_breaking() {
    let report = analyze(&v1(), &v2(), &render);
    assert_eq!(report.level, CompatibilityLevel::Breaking);
    assert!(!report.is_compatible());

    let findings = report.findings();
    assert_eq!(findings.len(), 4, "expected exactly the four changes the directive names: {findings:#?}");

    let provenance = findings.iter().find(|f| f.path.to_string() == ".provenance").unwrap();
    assert_eq!(provenance.level, CompatibilityLevel::Compatible, "added optional field is compatible");

    let evidence = findings.iter().find(|f| f.path.to_string() == ".evidence").unwrap();
    assert_eq!(evidence.level, CompatibilityLevel::Breaking, "added required field is breaking");

    let score_bound = findings.iter().find(|f| f.path.to_string() == ".score.maximum").unwrap();
    assert_eq!(score_bound.level, CompatibilityLevel::Breaking, "narrowed range is breaking");
    assert_eq!(score_bound.previous.as_deref(), Some("integer [0, 100]"));
    assert_eq!(score_bound.new.as_deref(), Some("integer [0, 10]"));

    let legacy_score = findings.iter().find(|f| f.path.to_string() == ".legacy_score").unwrap();
    assert_eq!(legacy_score.level, CompatibilityLevel::Breaking, "removed field is breaking");
}

#[test]
fn reversing_the_transition_is_not_automatically_compatible_either() {
    let report = analyze(&v2(), &v1(), &render);
    assert_eq!(report.level, CompatibilityLevel::Breaking);
}

#[test]
fn widening_a_range_bound_is_one_compatible_change() {
    let narrow = schema((1, 0, 0), vec![Field::new("s", Type::Float).constraint(range(Some(0.5), None))]);
    let wide = schema((2, 0, 0), vec![Field::new("s", Type::Float).constraint(range(Some(-1.5), None))]);
    let d = diff(&narrow, &wide, &render);
    assert_eq!(d.entries().len(), 1);
    assert_eq!(d.entries()[0].path.to_string(), ".s.minimum");
    assert_eq!(d.entries()[0].before.as_deref(), Some("0.5"));
    assert_eq!(d.entries()[0].after.as_deref(), Some("-1.5"));
    assert_eq!(analyze(&narrow, &wide, &render).level, CompatibilityLevel::Compatible);
}

#[test]
fn field_order_and_map_key_types_do_not_change_the_diff() {
    let before = schema(
        (1, 0, 0),
        vec![
            Field::new("a", Type::map(Type::String, Type::Integer)),
            Field::new("b", Type::Bool),
        ],
    );
    let after = schema(
        (1, 1, 0),
        vec![
            Field::new("b", Type::Bool),
            Field::new("a", Type::map(Type::Integer, Type::Integer)),
        ],
    );
    assert!(diff(&before, &after, &render).is_identical());
    let report = analyze(&before, &after, &render);
    assert_eq!(report.level, CompatibilityLevel::Identical);
    assert!(report.is_compatible());
}

#[test]
fn every_finding_matches_its_entry() {
    let before = schema((1, 0, 0), vec![Field::new("a", Type::Integer), Field::new("b", Type::Bool)]);
    let after = schema((2, 0, 0), vec![Field::new("a", Type::String), Field::new("c", Type::Bool)]);
    let report = analyze(&before, &after, &render);
    assert_eq!(report.findings().len(), report.diff().entries().len());
    for (f, e) in report.findings().iter().zip(report.diff().entries().iter()) {
        assert_eq!(f.path, e.path);
        assert!(matches!(f.level, CompatibilityLevel::Compatible | CompatibilityLevel::Breaking));
    }
    assert_eq!(report.level, CompatibilityLevel::Breaking);
    assert!(!report.is_compatible());
}

#[test]
fn schema_with_nan_bound_diffed_against_itself_is_identical() {
    let s = schema(
        (1, 0, 0),
        vec![Field::new("x", Type::Float).constraint(range(Some(f64::NAN), Some(2.0))).constraint(range(None, Some(f64::NAN)))],
    );
    assert!(diff(&s, &s, &render).is_identical());
    assert_eq!(analyze(&s, &s, &render).level, CompatibilityLevel::Identical);
}

#[test]
fn a_changed_bound_is_still_a_change() {
    let before = schema((1, 0, 0), vec![Field::new("x", Type::Float).constraint(range(Some(f64::NAN), None))]);
    let after = schema((1, 1, 0), vec![Field::new("x", Type::Float).constraint(range(Some(1.0), None))]);
    assert!(!diff(&before, &after, &render).is_identical());
}

#[test]
fn report_level_getter_matches_the_field() {
    let before = schema((1, 0, 0), vec![Field::new("a", Type::Integer)]);
    let after = schema((1, 1, 0), vec![]);
    let report = analyze(&before, &after, &render);
    assert_eq!(report.level(), report.level);
    assert_eq!(report.level(), CompatibilityLevel::Breaking);
}

#[test]
fn built_entries_classify_by_their_bounds() {
    let p = obserde::path::Path::root().field("x").field("maximum");
    let narrowed = DiffEntry::new(
        p.clone(),
        DiffKind::ConstraintChanged,
        Some("10".to_string()),
        Some("5".to_string()),
        Some((10.0f64.to_bits(), 5.0f64.to_bits())),
    );
    assert_eq!(classify_level(&narrowed), CompatibilityLevel::Breaking);
    let widened = DiffEntry::new(
        p,
        DiffKind::ConstraintChanged,
        Some("5".to_string()),
        Some("10".to_string()),
        Some((5.0f64.to_bits(), 10.0f64.to_bits())),
    );
    assert_eq!(classify_level(&widened), CompatibilityLevel::Compatible);
    assert_eq!(widened.clone(), widened);
}
