//! Migrations between schema versions: the node identity of the migration
//! graph, one migration edge with its transforms, and how a migration runs
//! (pre-validate, transform, post-validate).
use vstd::prelude::*;
use crate::contract::Contract;
use crate::document::{DocView, Document};
use crate::errors::ErrorCode;
use crate::schema::{FieldView, Schema};
use crate::text::{debug_str, decimal, push_char, push_str, str_debug, str_eq};
use crate::validate::{
    grammar_reason, has_error, rendered, renders_floats, validate, validate_spec, IssueView, ValidateError,
    ValidationResult,
};
use crate::version::SchemaVersion;

verus! {

/// A migration graph node: a `Contract` with its `revision` dropped.
/// Migrations move between structurally different schema versions, and
/// `revision` is a non-structural build stamp, so two contracts differing
/// only in `revision` are the same node.
#[derive(Debug)]
pub struct SchemaId {
    namespace: String,
    name: String,
    version: SchemaVersion,
}

/// The mathematical value of a `SchemaId`.
pub struct SchemaIdView {
    pub namespace: Seq<char>,
    pub name: Seq<char>,
    pub version: SchemaVersion,
}

impl View for SchemaId {
    type V = SchemaIdView;

    closed spec fn view(&self) -> SchemaIdView {
        SchemaIdView { namespace: self.namespace@, name: self.name@, version: self.version }
    }
}

/// The node of a contract: its namespace, name and version.
pub open spec fn contract_node(c: Contract) -> SchemaIdView {
    SchemaIdView { namespace: c.namespace_spec(), name: c.name_spec(), version: c.version_spec() }
}

/// The text `namespace.name/version`.
pub open spec fn schema_id_text(v: SchemaIdView) -> Seq<char> {
    v.namespace + seq!['.'] + v.name + seq!['/'] + v.version.text()
}

impl PartialEq for SchemaId {
    fn eq(&self, other: &SchemaId) -> (r: bool) {
        str_eq(self.namespace.as_str(), other.namespace.as_str()) && str_eq(self.name.as_str(), other.name.as_str())
            && self.version == other.version
    }
}

impl vstd::std_specs::cmp::PartialEqSpecImpl for SchemaId {
    open spec fn obeys_eq_spec() -> bool {
        true
    }

    open spec fn eq_spec(&self, other: &SchemaId) -> bool {
        self@ == other@
    }
}

impl Eq for SchemaId {

}

impl Clone for SchemaId {
    fn clone(&self) -> (r: Self)
        ensures
            r@ == self@,
    {
        SchemaId { namespace: self.namespace.clone(), name: self.name.clone(), version: self.version }
    }
}

impl SchemaId {
    pub fn new(namespace: &str, name: &str, version: SchemaVersion) -> (r: SchemaId)
        ensures
            r@ == (SchemaIdView { namespace: namespace@, name: name@, version }),
    {
        SchemaId { namespace: namespace.to_string(), name: name.to_string(), version }
    }

    /// The node of `contract`: its namespace, name and version, without its
    /// revision.
    pub fn from(contract: &Contract) -> (r: SchemaId)
        ensures
            r@ == contract_node(*contract),
    {
        SchemaId {
            namespace: contract.namespace().to_string(),
            name: contract.name().to_string(),
            version: contract.version(),
        }
    }

    pub fn namespace(&self) -> (r: &str)
        ensures
            r@ == self@.namespace,
    {
        self.namespace.as_str()
    }

    pub fn name(&self) -> (r: &str)
        ensures
            r@ == self@.name,
    {
        self.name.as_str()
    }

    pub fn version(&self) -> (r: SchemaVersion)
        ensures
            r == self@.version,
    {
        self.version
    }

    /// Equality of nodes.
    pub fn same(&self, other: &SchemaId) -> (r: bool)
        ensures
            r == (self@ == other@),
    {
        let r = str_eq(self.namespace.as_str(), other.namespace.as_str()) && str_eq(
            self.name.as_str(),
            other.name.as_str(),
        ) && self.version == other.version;
        proof {
            if r {
                assert(self@ =~= other@);
            }
        }
        r
    }

    /// The text `namespace.name/version`.
    pub fn to_string(&self) -> (r: String)
        ensures
            r@ == schema_id_text(self@),
    {
        let mut r = String::new();
        push_str(&mut r, self.namespace.as_str());
        push_char(&mut r, '.');
        push_str(&mut r, self.name.as_str());
        push_char(&mut r, '/');
        let v = self.version.to_string();
        push_str(&mut r, v.as_str());
        proof {
            assert(r@ =~= schema_id_text(self@));
        }
        r
    }
}

/// Two contracts that differ only in their revision are the same node.
pub proof fn law_revision_is_not_part_of_the_node(a: Contract, b: Contract)
    requires
        a.namespace_spec() == b.namespace_spec(),
        a.name_spec() == b.name_spec(),
        a.version_spec() == b.version_spec(),
    ensures
        contract_node(a) == contract_node(b),
{
}

/// How strictly a migration validates around its transform. Post-validation
/// is never skipped, under either policy and in either direction; `PostOnly`
/// skips only the forward pre-validation.
#[derive(Debug, Clone, Copy, PartialEq, Eq, Structural)]
pub enum ValidationPolicy {
    /// Validate against the source schema before transforming and against
    /// the target schema after. The default.
    Strict,
    /// Skip pre-validation; still always post-validate.
    PostOnly,
}

/// Failures from constructing, executing, or registering a migration.
#[derive(Debug)]
pub enum MigrationError {
    /// Validation itself could not run (an unrecognized pattern grammar).
    ValidationUnavailable {
        migration_id: String,
        direction: &'static str,
        phase: &'static str,
        source: ValidateError,
    },
    PreValidationFailed { migration_id: String, direction: &'static str, issues: ValidationResult },
    /// A transform whose output violates its target schema: never a
    /// silently accepted partial result.
    PostValidationFailed { migration_id: String, direction: &'static str, issues: ValidationResult },
    TransformFailed { migration_id: String, direction: &'static str, reason: String },
    NotReversible { migration_id: String },
    /// Two migrations register differently structured schemas under one
    /// node.
    SchemaIdConflict { schema_id: String, migration_id: String, conflicting_migration_id: String },
}

impl ErrorCode for MigrationError {
    open spec fn code_spec(&self) -> Seq<char> {
        match self {
            MigrationError::ValidationUnavailable { .. } => "migrate.validation.unavailable"@,
            MigrationError::PreValidationFailed { .. } => "migrate.validation.pre-failed"@,
            MigrationError::PostValidationFailed { .. } => "migrate.validation.post-failed"@,
            MigrationError::TransformFailed { .. } => "migrate.transform.failed"@,
            MigrationError::NotReversible { .. } => "migrate.reverse.unavailable"@,
            MigrationError::SchemaIdConflict { .. } => "migrate.graph.schema-id-conflict"@,
        }
    }

    fn code(&self) -> (r: &'static str) {
        match self {
            MigrationError::ValidationUnavailable { .. } => "migrate.validation.unavailable",
            MigrationError::PreValidationFailed { .. } => "migrate.validation.pre-failed",
            MigrationError::PostValidationFailed { .. } => "migrate.validation.post-failed",
            MigrationError::TransformFailed { .. } => "migrate.transform.failed",
            MigrationError::NotReversible { .. } => "migrate.reverse.unavailable",
            MigrationError::SchemaIdConflict { .. } => "migrate.graph.schema-id-conflict",
        }
    }
}

/// The words `migration "<id>" `.
pub open spec fn migration_head(id: Seq<char>) -> Seq<char> {
    "migration "@ + str_debug(id) + " "@
}

impl MigrationError {
    pub open spec fn message_spec(&self) -> Seq<char> {
        match self {
            MigrationError::ValidationUnavailable { migration_id, direction, phase, source } => migration_head(
                migration_id@,
            ) + direction@ + " "@ + phase@ + "-validation could not run: "@ + source.message_spec(),
            MigrationError::PreValidationFailed { migration_id, direction, .. } => migration_head(migration_id@)
                + direction@ + " pre-validation failed: input document does not satisfy the source schema"@,
            MigrationError::PostValidationFailed { migration_id, direction, .. } => migration_head(migration_id@)
                + direction@ + " post-validation failed: transformed document does not satisfy the target schema"@,
            MigrationError::TransformFailed { migration_id, direction, reason } => migration_head(migration_id@)
                + direction@ + " transform failed: "@ + reason@,
            MigrationError::NotReversible { migration_id } => "migration "@ + str_debug(migration_id@)
                + " has no reverse transform"@,
            MigrationError::SchemaIdConflict { schema_id, migration_id, conflicting_migration_id } => "schema "@
                + schema_id@ + " is registered with conflicting structure by migrations "@ + str_debug(
                migration_id@,
            ) + " and "@ + str_debug(conflicting_migration_id@),
        }
    }

    /// The human-readable message of this error.
    pub fn message(&self) -> (r: String)
        ensures
            r@ == self.message_spec(),
    {
        let mut r = String::new();
        match self {
            MigrationError::SchemaIdConflict { schema_id, migration_id, conflicting_migration_id } => {
                push_str(&mut r, "schema ");
                push_str(&mut r, schema_id.as_str());
                push_str(&mut r, " is registered with conflicting structure by migrations ");
                let a = debug_str(migration_id.as_str());
                push_str(&mut r, a.as_str());
                push_str(&mut r, " and ");
                let b = debug_str(conflicting_migration_id.as_str());
                push_str(&mut r, b.as_str());
            },
            MigrationError::NotReversible { migration_id } => {
                push_str(&mut r, "migration ");
                let a = debug_str(migration_id.as_str());
                push_str(&mut r, a.as_str());
                push_str(&mut r, " has no reverse transform");
            },
            MigrationError::ValidationUnavailable { migration_id, direction, phase, source } => {
                push_str(&mut r, "migration ");
                let a = debug_str(migration_id.as_str());
                push_str(&mut r, a.as_str());
                push_str(&mut r, " ");
                push_str(&mut r, direction);
                push_str(&mut r, " ");
                push_str(&mut r, phase);
                push_str(&mut r, "-validation could not run: ");
                let m = source.message();
                push_str(&mut r, m.as_str());
            },
            MigrationError::PreValidationFailed { migration_id, direction, .. } => {
                push_str(&mut r, "migration ");
                let a = debug_str(migration_id.as_str());
                push_str(&mut r, a.as_str());
                push_str(&mut r, " ");
                push_str(&mut r, direction);
                push_str(&mut r, " pre-validation failed: input document does not satisfy the source schema");
            },
            MigrationError::PostValidationFailed { migration_id, direction, .. } => {
                push_str(&mut r, "migration ");
                let a = debug_str(migration_id.as_str());
                push_str(&mut r, a.as_str());
                push_str(&mut r, " ");
                push_str(&mut r, direction);
                push_str(
                    &mut r,
                    " post-validation failed: transformed document does not satisfy the target schema",
                );
            },
            MigrationError::TransformFailed { migration_id, direction, reason } => {
                push_str(&mut r, "migration ");
                let a = debug_str(migration_id.as_str());
                push_str(&mut r, a.as_str());
                push_str(&mut r, " ");
                push_str(&mut r, direction);
                push_str(&mut r, " transform failed: ");
                push_str(&mut r, reason.as_str());
            },
        }
        proof {
            assert(r@ =~= self.message_spec());
        }
        r
    }
}

/// A migration's document transform: `Ok(new_document)` on success,
/// `Err(reason)` on failure. Implemented by migration authors, who state in
/// `transforms` which results their transform may give for a document.
pub trait Transform {
    /// Whether `out` is a result this transform may give for a document
    /// with value `input`. An implementation that does not state it
    /// promises nothing: every result is allowed.
    open spec fn transforms(&self, input: DocView, out: Result<DocView, Seq<char>>) -> bool {
        true
    }

    fn transform(&self, doc: &Document) -> (r: Result<Document, String>)
        ensures
            self.transforms(doc@, transformed_view(r)),
    ;
}

/// What validating a document finds: it passes (no issue of severity
/// `Error`), validation cannot run (an unrecognized grammar), or it fails
/// with these issues.
pub enum CheckView {
    Passed,
    Unavailable(Seq<char>),
    Failed(Seq<IssueView>),
}

/// What validating `doc` against the fields `fs` finds.
pub open spec fn check_spec(fs: Seq<FieldView>, doc: DocView, rf: spec_fn(u64) -> Seq<char>) -> CheckView {
    match validate_spec(fs, doc, rf) {
        Err(g) => CheckView::Unavailable(g),
        Ok(x) => if has_error(x) {
            CheckView::Failed(x)
        } else {
            CheckView::Passed
        },
    }
}

/// The value of what a transform gave back.
pub open spec fn transformed_view(t: Result<Document, String>) -> Result<DocView, Seq<char>> {
    match t {
        Ok(d) => Ok(d@),
        Err(s) => Err(s@),
    }
}

/// The error of a pre-validation that did not pass.
pub open spec fn pre_outcome(r: Result<Document, MigrationError>, id: Seq<char>, dir: Seq<char>, c: CheckView) -> bool {
    match c {
        CheckView::Unavailable(g) => r matches Err(
            MigrationError::ValidationUnavailable { migration_id, direction, phase, source },
        ) && migration_id@ == id && direction@ == dir && phase@ == "pre"@ && source->grammar@ == g
            && source->reason@ == grammar_reason(),
        CheckView::Failed(x) => r matches Err(MigrationError::PreValidationFailed { migration_id, direction, issues })
            && migration_id@ == id && direction@ == dir && issues@ == x,
        CheckView::Passed => false,
    }
}

/// The outcome of a migration step whose transform gave `t`: the reason of
/// a failed transform, or the result of validating the transformed document
/// against the fields `fs`.
pub open spec fn post_outcome(
    r: Result<Document, MigrationError>,
    id: Seq<char>,
    dir: Seq<char>,
    fs: Seq<FieldView>,
    rf: spec_fn(u64) -> Seq<char>,
    t: Result<DocView, Seq<char>>,
) -> bool {
    match t {
        Err(reason) => r matches Err(MigrationError::TransformFailed { migration_id, direction, reason: why })
            && migration_id@ == id && direction@ == dir && why@ == reason,
        Ok(d) => match check_spec(fs, d, rf) {
            CheckView::Unavailable(g) => r matches Err(
                MigrationError::ValidationUnavailable { migration_id, direction, phase, source },
            ) && migration_id@ == id && direction@ == dir && phase@ == "post"@ && source->grammar@ == g
                && source->reason@ == grammar_reason(),
            CheckView::Failed(x) => r matches Err(
                MigrationError::PostValidationFailed { migration_id, direction, issues },
            ) && migration_id@ == id && direction@ == dir && issues@ == x,
            CheckView::Passed => r matches Ok(out) && out@ == d,
        },
    }
}

/// The outcome of running a migration step on `doc` with a transform whose
/// results are related to its input by `tr`: pre-validation against
/// `pre_fs` (unless skipped) stops it with its error; past it, the
/// transform runs on `doc` itself, and the outcome is that of a result `t`
/// the transform may give for `doc`.
pub open spec fn run_outcome(
    r: Result<Document, MigrationError>,
    id: Seq<char>,
    dir: Seq<char>,
    pre_fs: Seq<FieldView>,
    post_fs: Seq<FieldView>,
    skip_pre: bool,
    doc: DocView,
    rf: spec_fn(u64) -> Seq<char>,
    tr: spec_fn(DocView, Result<DocView, Seq<char>>) -> bool,
) -> bool {
    let pre = check_spec(pre_fs, doc, rf);
    if !skip_pre && !(pre is Passed) {
        pre_outcome(r, id, dir, pre)
    } else {
        exists|t: Result<DocView, Seq<char>>| tr(doc, t) && #[trigger] post_outcome(r, id, dir, post_fs, rf, t)
    }
}

/// Checks the document a transform gave back against `post_schema`: a
/// failed transform gives `TransformFailed`, a document that validation
/// cannot check or that fails it gives the matching error, and a passing
/// one is returned unchanged.
pub fn post_phase<R: Fn(u64) -> String>(
    migration_id: &str,
    direction: &'static str,
    post_schema: &Schema,
    transformed: Result<Document, String>,
    render: &R,
) -> (r: Result<Document, MigrationError>)
    requires
        renders_floats(*render),
    ensures
        post_outcome(
            r,
            migration_id@,
            direction@,
            post_schema.fields_spec(),
            |x: u64| rendered(*render, x),
            transformed_view(transformed),
        ),
{
    let transformed = match transformed {
        Ok(d) => d,
        Err(reason) => {
            return Err(MigrationError::TransformFailed { migration_id: migration_id.to_string(), direction, reason });
        },
    };
    match validate(post_schema, &transformed, render) {
        Err(source) => Err(
            MigrationError::ValidationUnavailable {
                migration_id: migration_id.to_string(),
                direction,
                phase: "post",
                source,
            },
        ),
        Ok(post) => {
            if !post.is_valid() {
                Err(MigrationError::PostValidationFailed { migration_id: migration_id.to_string(), direction, issues: post })
            } else {
                Ok(transformed)
            }
        },
    }
}

/// One migration: a transform from documents satisfying `source` to
/// documents satisfying `target`, with an identity and a version of its own.
/// `reverse` is the reverse transform where there is one: `None` means
/// irreversible. Both transforms are of type `T`; a graph of migrations
/// with transforms of different types uses `Box<dyn Transform>`.
pub struct Migration<T> {
    id: String,
    version: SchemaVersion,
    source: Schema,
    target: Schema,
    policy: ValidationPolicy,
    forward: T,
    reverse: Option<T>,
}

impl<T: Transform> Migration<T> {
    pub closed spec fn id_spec(&self) -> Seq<char> {
        self.id@
    }

    pub closed spec fn version_spec(&self) -> SchemaVersion {
        self.version
    }

    pub closed spec fn source_spec(&self) -> Schema {
        self.source
    }

    pub closed spec fn target_spec(&self) -> Schema {
        self.target
    }

    pub closed spec fn policy_spec(&self) -> ValidationPolicy {
        self.policy
    }

    pub closed spec fn reversible_spec(&self) -> bool {
        self.reverse is Some
    }

    /// Whether the forward transform may give `out` for a document with
    /// value `input`.
    pub closed spec fn forward_transforms(&self, input: DocView, out: Result<DocView, Seq<char>>) -> bool {
        self.forward.transforms(input, out)
    }

    /// Whether the reverse transform, where there is one, may give `out`
    /// for a document with value `input`.
    pub closed spec fn reverse_transforms(&self, input: DocView, out: Result<DocView, Seq<char>>) -> bool {
        match self.reverse {
            Some(t) => t.transforms(input, out),
            None => false,
        }
    }

    /// A migration with policy `Strict` and no reverse transform. A
    /// migration whose source and target share a node is allowed.
    pub fn new(id: &str, version: SchemaVersion, source: Schema, target: Schema, forward: T) -> (r: Migration<T>)
        ensures
            r.id_spec() == id@,
            r.version_spec() == version,
            r.source_spec() == source,
            r.target_spec() == target,
            r.policy_spec() == ValidationPolicy::Strict,
            !r.reversible_spec(),
            forall|d: DocView, t: Result<DocView, Seq<char>>|
                #[trigger] r.forward_transforms(d, t) == forward.transforms(d, t),
    {
        Migration {
            id: id.to_string(),
            version,
            source,
            target,
            policy: ValidationPolicy::Strict,
            forward,
            reverse: None,
        }
    }

    pub fn with_policy(self, policy: ValidationPolicy) -> (r: Migration<T>)
        ensures
            r.id_spec() == self.id_spec(),
            r.version_spec() == self.version_spec(),
            r.source_spec() == self.source_spec(),
            r.target_spec() == self.target_spec(),
            r.policy_spec() == policy,
            r.reversible_spec() == self.reversible_spec(),
            forall|d: DocView, t: Result<DocView, Seq<char>>|
                #[trigger] r.forward_transforms(d, t) == self.forward_transforms(d, t),
            forall|d: DocView, t: Result<DocView, Seq<char>>|
                #[trigger] r.reverse_transforms(d, t) == self.reverse_transforms(d, t),
    {
        let mut m = self;
        m.policy = policy;
        m
    }

    pub fn with_reverse(self, reverse: T) -> (r: Migration<T>)
        ensures
            r.id_spec() == self.id_spec(),
            r.version_spec() == self.version_spec(),
            r.source_spec() == self.source_spec(),
            r.target_spec() == self.target_spec(),
            r.policy_spec() == self.policy_spec(),
            r.reversible_spec(),
            forall|d: DocView, t: Result<DocView, Seq<char>>|
                #[trigger] r.forward_transforms(d, t) == self.forward_transforms(d, t),
            forall|d: DocView, t: Result<DocView, Seq<char>>|
                #[trigger] r.reverse_transforms(d, t) == reverse.transforms(d, t),
    {
        let mut m = self;
        m.reverse = Some(reverse);
        m
    }

    pub fn id(&self) -> (r: &str)
        ensures
            r@ == self.id_spec(),
    {
        self.id.as_str()
    }

    pub fn version(&self) -> (r: SchemaVersion)
        ensures
            r == self.version_spec(),
    {
        self.version
    }

    pub fn source(&self) -> (r: &Schema)
        ensures
            *r == self.source_spec(),
    {
        &self.source
    }

    pub fn target(&self) -> (r: &Schema)
        ensures
            *r == self.target_spec(),
    {
        &self.target
    }

    pub fn policy(&self) -> (r: ValidationPolicy)
        ensures
            r == self.policy_spec(),
    {
        self.policy
    }

    pub fn is_reversible(&self) -> (r: bool)
        ensures
            r == self.reversible_spec(),
    {
        self.reverse.is_some()
    }

    /// Forward: pre-validates against `source` (unless the policy is
    /// `PostOnly`), runs the forward transform, then always post-validates
    /// against `target`. A document that comes out satisfies `target`.
    pub fn apply<R: Fn(u64) -> String>(&self, doc: &Document, render: &R) -> (r: Result<Document, MigrationError>)
        requires
            renders_floats(*render),
        ensures
            run_outcome(
                r,
                self.id_spec(),
                "forward"@,
                self.source_spec().fields_spec(),
                self.target_spec().fields_spec(),
                self.policy_spec() == ValidationPolicy::PostOnly,
                doc@,
                |x: u64| rendered(*render, x),
                |d: DocView, t: Result<DocView, Seq<char>>| self.forward_transforms(d, t),
            ),
            r matches Ok(d) ==> check_spec(
                self.target_spec().fields_spec(),
                d@,
                |x: u64| rendered(*render, x),
            ) is Passed,
    {
        let skip_pre = self.policy == ValidationPolicy::PostOnly;
        if !skip_pre {
            if let Some(e) = self.pre_phase(doc, "forward", &self.source, render) {
                return Err(e);
            }
        }
        let transformed = self.forward.transform(doc);
        let ghost t = transformed_view(transformed);
        let r = post_phase(self.id.as_str(), "forward", &self.target, transformed, render);
        proof {
            assert(self.forward_transforms(doc@, t));
            assert(post_outcome(r, self.id_spec(), "forward"@, self.target_spec().fields_spec(), |x: u64| rendered(*render, x), t));
        }
        r
    }

    /// Reverse: `NotReversible` at once when there is no reverse transform.
    /// Otherwise always pre-validates against `target` and post-validates
    /// against `source`, whatever the policy. A document that comes out
    /// satisfies `source`.
    pub fn apply_reverse<R: Fn(u64) -> String>(&self, doc: &Document, render: &R) -> (r: Result<
        Document,
        MigrationError,
    >)
        requires
            renders_floats(*render),
        ensures
            !self.reversible_spec() ==> (r matches Err(MigrationError::NotReversible { migration_id })
                && migration_id@ == self.id_spec()),
            self.reversible_spec() ==> run_outcome(
                r,
                self.id_spec(),
                "reverse"@,
                self.target_spec().fields_spec(),
                self.source_spec().fields_spec(),
                false,
                doc@,
                |x: u64| rendered(*render, x),
                |d: DocView, t: Result<DocView, Seq<char>>| self.reverse_transforms(d, t),
            ),
            r matches Ok(d) ==> check_spec(
                self.source_spec().fields_spec(),
                d@,
                |x: u64| rendered(*render, x),
            ) is Passed,
    {
        match &self.reverse {
            None => Err(MigrationError::NotReversible { migration_id: self.id.clone() }),
            Some(reverse) => {
                if let Some(e) = self.pre_phase(doc, "reverse", &self.target, render) {
                    return Err(e);
                }
                let transformed = reverse.transform(doc);
                let ghost t = transformed_view(transformed);
                let r = post_phase(self.id.as_str(), "reverse", &self.source, transformed, render);
                proof {
                    assert(self.reverse_transforms(doc@, t));
                    assert(post_outcome(r, self.id_spec(), "reverse"@, self.source_spec().fields_spec(), |x: u64| rendered(*render, x), t));
                }
                r
            },
        }
    }

    /// Pre-validation of `doc` against `pre_schema`: `None` when it passes,
    /// else the error that stops the step.
    fn pre_phase<R: Fn(u64) -> String>(
        &self,
        doc: &Document,
        direction: &'static str,
        pre_schema: &Schema,
        render: &R,
    ) -> (r: Option<MigrationError>)
        requires
            renders_floats(*render),
        ensures
            r is None <==> check_spec(pre_schema.fields_spec(), doc@, |x: u64| rendered(*render, x)) is Passed,
            r matches Some(e) ==> pre_outcome(
                Err(e),
                self.id_spec(),
                direction@,
                check_spec(pre_schema.fields_spec(), doc@, |x: u64| rendered(*render, x)),
            ),
    {
        match validate(pre_schema, doc, render) {
            Err(source) => Some(
                MigrationError::ValidationUnavailable { migration_id: self.id.clone(), direction, phase: "pre", source },
            ),
            Ok(pre) => {
                if !pre.is_valid() {
                    Some(MigrationError::PreValidationFailed { migration_id: self.id.clone(), direction, issues: pre })
                } else {
                    None
                }
            },
        }
    }
}

/// A boxed transform of any type is a transform: it gives what the boxed
/// one gives.
impl Transform for Box<dyn Transform> {
    open spec fn transforms(&self, input: DocView, out: Result<DocView, Seq<char>>) -> bool {
        (**self).transforms(input, out)
    }

    fn transform(&self, doc: &Document) -> (r: Result<Document, String>) {
        (**self).transform(doc)
    }
}

} // verus!
