//! Structural and constraint validation of a `Document` against a `Schema`:
//! required fields are present, present values match their declared types
//! (recursively through lists and maps), and declared constraints hold.
use vstd::prelude::*;
use crate::document::{kind_name_of, lemma_view_parts, lookup, DocView, Document};
use crate::errors::ErrorCode;
use crate::float_bits::{f64_bits_of_int, f64_lt, i64_to_f64_bits, lt};
use crate::grammar::{is_identifier, is_identifier_spec, is_rfc3339, is_rfc3339_spec};
use crate::path::{Path, SegView};
use crate::schema::{type_text, Constraint, ConstraintView, Field, FieldView, Schema, Type, fields_view};
use crate::text::{chars_of, debug_str, decimal, decimal_string, push_str, str_debug, str_eq};

verus! {

#[derive(Debug, Clone, Copy, PartialEq, Eq, Structural)]
pub enum Severity {
    Error,
    Warning,
}

/// One structural or constraint finding against a document, at a specific
/// path, with a stable machine-readable `code`.
#[derive(Debug, PartialEq)]
pub struct ValidationIssue {
    pub path: Path,
    pub code: String,
    pub severity: Severity,
    pub message: String,
    pub expected: Option<String>,
    pub actual: Option<String>,
}

/// The mathematical value of a `ValidationIssue`.
pub struct IssueView {
    pub path: Seq<SegView>,
    pub code: Seq<char>,
    pub severity: Severity,
    pub message: Seq<char>,
    pub expected: Option<Seq<char>>,
    pub actual: Option<Seq<char>>,
}

pub open spec fn opt_view(o: Option<String>) -> Option<Seq<char>> {
    match o {
        Some(s) => Some(s@),
        None => None,
    }
}

impl View for ValidationIssue {
    type V = IssueView;

    open spec fn view(&self) -> IssueView {
        IssueView {
            path: self.path@,
            code: self.code@,
            severity: self.severity,
            message: self.message@,
            expected: opt_view(self.expected),
            actual: opt_view(self.actual),
        }
    }
}

fn clone_opt(o: &Option<String>) -> (r: Option<String>)
    ensures
        opt_view(r) == opt_view(*o),
{
    match o {
        Some(s) => Some(s.clone()),
        None => None,
    }
}

impl Clone for ValidationIssue {
    fn clone(&self) -> (r: Self)
        ensures
            r@ == self@,
    {
        ValidationIssue {
            path: self.path.clone(),
            code: self.code.clone(),
            severity: self.severity,
            message: self.message.clone(),
            expected: clone_opt(&self.expected),
            actual: clone_opt(&self.actual),
        }
    }
}

/// The values of a list of issues.
pub open spec fn issues_view(v: Seq<ValidationIssue>) -> Seq<IssueView> {
    v.map_values(|i: ValidationIssue| i@)
}

/// A list of issues holds one of severity `Error`.
pub open spec fn has_error(v: Seq<IssueView>) -> bool {
    exists|i: int| 0 <= i < v.len() && #[trigger] v[i].severity == Severity::Error
}

/// The issues of severity `Error`, in order.
pub open spec fn errors_of(v: Seq<IssueView>) -> Seq<IssueView> {
    v.filter(|i: IssueView| i.severity == Severity::Error)
}

/// The outcome of validating a document: zero or more issues. A result
/// with no `Error` issue is valid, even if it carries warnings.
#[derive(Debug, PartialEq)]
pub struct ValidationResult {
    issues: Vec<ValidationIssue>,
}

impl View for ValidationResult {
    type V = Seq<IssueView>;

    closed spec fn view(&self) -> Seq<IssueView> {
        issues_view(self.issues@)
    }
}

impl Clone for ValidationResult {
    fn clone(&self) -> (r: Self)
        ensures
            r@ == self@,
    {
        let mut v: Vec<ValidationIssue> = Vec::new();
        let mut i: usize = 0;
        while i < self.issues.len()
            invariant
                i <= self.issues@.len(),
                issues_view(v@) == issues_view(self.issues@).take(i as int),
            decreases self.issues@.len() - i,
        {
            push_issue(&mut v, self.issues[i].clone());
            proof {
                assert(issues_view(v@) =~= issues_view(self.issues@).take(i as int + 1));
            }
            i = i + 1;
        }
        proof {
            assert(issues_view(self.issues@).take(self.issues@.len() as int) =~= issues_view(self.issues@));
        }
        ValidationResult { issues: v }
    }
}

impl Default for ValidationResult {
    fn default() -> (r: Self)
        ensures
            r@ == Seq::<IssueView>::empty(),
    {
        let r = ValidationResult { issues: Vec::new() };
        proof {
            assert(r@ =~= Seq::<IssueView>::empty());
        }
        r
    }
}

impl ValidationResult {
    pub fn new(issues: Vec<ValidationIssue>) -> (r: Self)
        ensures
            r@ == issues_view(issues@),
    {
        ValidationResult { issues }
    }

    /// No issue has severity `Error`.
    pub fn is_valid(&self) -> (r: bool)
        ensures
            r == !has_error(self@),
    {
        let mut i: usize = 0;
        while i < self.issues.len()
            invariant
                i <= self.issues@.len(),
                forall|j: int| 0 <= j < i ==> self.issues@[j].severity != Severity::Error,
            decreases self.issues@.len() - i,
        {
            if self.issues[i].severity == Severity::Error {
                proof {
                    assert(self@[i as int].severity == Severity::Error);
                }
                return false;
            }
            i = i + 1;
        }
        proof {
            assert forall|j: int| 0 <= j < self@.len() implies #[trigger] self@[j].severity != Severity::Error by {
                assert(self@[j] == self.issues@[j]@);
            }
        }
        true
    }

    pub fn issues(&self) -> (r: &[ValidationIssue])
        ensures
            issues_view(r@) == self@,
    {
        self.issues.as_slice()
    }

    /// The issues of severity `Error`, in order.
    pub fn errors(&self) -> (r: Vec<&ValidationIssue>)
        ensures
            r@.map_values(|i: &ValidationIssue| i@) == errors_of(self@),
    {
        let mut out: Vec<&ValidationIssue> = Vec::new();
        let mut i: usize = 0;
        while i < self.issues.len()
            invariant
                i <= self.issues@.len(),
                out@.map_values(|x: &ValidationIssue| x@) == errors_of(self@.take(i as int)),
            decreases self.issues@.len() - i,
        {
            proof {
                assert(self@.take(i as int + 1).drop_last() =~= self@.take(i as int));
                assert(self@[i as int] == self.issues@[i as int]@);
                reveal(Seq::filter);
                assert(self@.take(i as int + 1).last() == self@[i as int]);
            }
            if self.issues[i].severity == Severity::Error {
                out.push(&self.issues[i]);
                proof {
                    assert(out@.map_values(|x: &ValidationIssue| x@) =~= errors_of(self@.take(i as int)).push(
                        self@[i as int],
                    ));
                }
            } else {
                proof {
                    assert(out@.map_values(|x: &ValidationIssue| x@) =~= errors_of(self@.take(i as int)));
                }
            }
            i = i + 1;
        }
        proof {
            assert(self@.take(self@.len() as int) =~= self@);
        }
        out
    }
}

/// Conditions that prevent validation from running at all.
#[derive(Debug, PartialEq, Eq)]
pub enum ValidateError {
    InvalidPatternGrammar { grammar: String, reason: String },
}

/// Why a grammar name is refused.
pub open spec fn grammar_reason() -> Seq<char> {
    "unrecognized grammar name; only \"identifier\" is supported in Phase 1"@
}

impl ErrorCode for ValidateError {
    open spec fn code_spec(&self) -> Seq<char> {
        "validate.pattern.invalid-grammar"@
    }

    fn code(&self) -> (r: &'static str) {
        "validate.pattern.invalid-grammar"
    }
}

impl ValidateError {
    pub open spec fn message_spec(&self) -> Seq<char> {
        match self {
            ValidateError::InvalidPatternGrammar { grammar, reason } => "unparseable pattern grammar "@
                + str_debug(grammar@) + ": "@ + reason@,
        }
    }

    /// The human-readable message of this error.
    pub fn message(&self) -> (r: String)
        ensures
            r@ == self.message_spec(),
    {
        let mut r = String::new();
        match self {
            ValidateError::InvalidPatternGrammar { grammar, reason } => {
                push_str(&mut r, "unparseable pattern grammar ");
                let d = debug_str(grammar.as_str());
                push_str(&mut r, d.as_str());
                push_str(&mut r, ": ");
                push_str(&mut r, reason.as_str());
            },
        }
        proof {
            assert(r@ =~= self.message_spec());
        }
        r
    }

    pub fn clone_error(&self) -> (r: ValidateError)
        ensures
            r == *self,
    {
        match self {
            ValidateError::InvalidPatternGrammar { grammar, reason } => ValidateError::InvalidPatternGrammar {
                grammar: grammar.clone(),
                reason: reason.clone(),
            },
        }
    }
}

/// A caller-supplied rendering of doubles (given by their bits) as text, as
/// std's `Display` for `f64` does; it must give one answer per input.
pub open spec fn renders_floats<R: Fn(u64) -> String>(render: R) -> bool {
    &&& forall|b: u64| call_requires(render, (b,))
    &&& forall|b: u64, s1: String, s2: String|
        call_ensures(render, (b,), s1) && call_ensures(render, (b,), s2) ==> s1@ == s2@
}

/// The text `render` gives for the double with bits `b`.
pub open spec fn rendered<R: Fn(u64) -> String>(render: R, b: u64) -> Seq<char> {
    (choose|s: String| call_ensures(render, (b,), s))@
}

pub proof fn lemma_rendered<R: Fn(u64) -> String>(render: R, b: u64, s: String)
    requires
        renders_floats(render),
        call_ensures(render, (b,), s),
    ensures
        s@ == rendered(render, b),
{
}

/// Renders the double with bits `b` through `render`.
pub fn render_bits<R: Fn(u64) -> String>(render: &R, b: u64) -> (r: String)
    requires
        renders_floats(*render),
    ensures
        r@ == rendered(*render, b),
{
    let s = render(b);
    proof {
        lemma_rendered(*render, b, s);
    }
    s
}

pub open spec fn error_issue(
    path: Seq<SegView>,
    code: Seq<char>,
    message: Seq<char>,
    expected: Seq<char>,
    actual: Seq<char>,
) -> IssueView {
    IssueView { path, code, severity: Severity::Error, message, expected: Some(expected), actual: Some(actual) }
}

/// A value of the wrong type.
pub open spec fn mismatch_issue(path: Seq<SegView>, expected: Seq<char>, actual: Seq<char>) -> IssueView {
    error_issue(path, "validate.type.mismatch"@, "expected "@ + expected + ", found "@ + actual, expected, actual)
}

/// The issues of checking `v` against `ty` at `path`.
pub open spec fn type_issues(ty: Type, v: DocView, path: Seq<SegView>) -> Seq<IssueView>
    decreases v, 0nat,
{
    match (ty, v) {
        (Type::Bool, DocView::Bool(_)) => Seq::empty(),
        (Type::Integer, DocView::Integer(_)) => Seq::empty(),
        (Type::Float, DocView::Float(_)) => Seq::empty(),
        (Type::String, DocView::String(_)) => Seq::empty(),
        (Type::Bytes, DocView::Bytes(_)) => Seq::empty(),
        (Type::Timestamp, DocView::String(s)) => if is_rfc3339_spec(s) {
            Seq::empty()
        } else {
            seq![mismatch_issue(path, "timestamp (RFC 3339)"@, "malformed timestamp string "@ + str_debug(s))]
        },
        (Type::List(e), DocView::List(items)) => items_issues(*e, items, path, items.len()),
        (Type::Mapping(_, vt), DocView::Mapping(es)) => entries_issues(*vt, es, path, es.len()),
        (expected, actual) => seq![mismatch_issue(path, type_text(expected), kind_name_of(actual))],
    }
}

/// The issues of the first `n` list items.
pub open spec fn items_issues(e: Type, items: Seq<DocView>, path: Seq<SegView>, n: nat) -> Seq<IssueView>
    decreases items, n,
{
    if n == 0 || n > items.len() {
        Seq::empty()
    } else {
        proof {
            assert(decreases_to!(items => items[n - 1]));
        }
        items_issues(e, items, path, (n - 1) as nat) + type_issues(
            e,
            items[n - 1],
            path.push(SegView::Index((n - 1) as usize)),
        )
    }
}

/// The issues of the values of the first `n` map entries.
pub open spec fn entries_issues(
    vt: Type,
    es: Seq<(Seq<char>, DocView)>,
    path: Seq<SegView>,
    n: nat,
) -> Seq<IssueView>
    decreases es, n,
{
    if n == 0 || n > es.len() {
        Seq::empty()
    } else {
        proof {
            assert(decreases_to!(es => es[n - 1]));
            assert(decreases_to!(es[n - 1] => es[n - 1].1));
        }
        entries_issues(vt, es, path, (n - 1) as nat) + type_issues(
            vt,
            es[n - 1].1,
            path.push(SegView::Field(es[n - 1].0)),
        )
    }
}

/// The values of a list of issues under construction.
proof fn lemma_push_issue(v: Seq<ValidationIssue>, x: ValidationIssue)
    ensures
        issues_view(v.push(x)) == issues_view(v).push(x@),
{
    assert(issues_view(v.push(x)) =~= issues_view(v).push(x@));
}

fn push_issue(issues: &mut Vec<ValidationIssue>, x: ValidationIssue)
    ensures
        issues_view(final(issues)@) == issues_view(old(issues)@).push(x@),
{
    proof {
        lemma_push_issue(issues@, x);
    }
    issues.push(x);
}

fn mismatch(path: &Path, expected: String, actual: String) -> (r: ValidationIssue)
    ensures
        r@ == mismatch_issue(path@, expected@, actual@),
{
    let mut message = String::new();
    push_str(&mut message, "expected ");
    push_str(&mut message, expected.as_str());
    push_str(&mut message, ", found ");
    push_str(&mut message, actual.as_str());
    let r = ValidationIssue {
        path: path.clone(),
        code: "validate.type.mismatch".to_string(),
        severity: Severity::Error,
        message,
        expected: Some(expected),
        actual: Some(actual),
    };
    proof {
        assert(r@.message =~= mismatch_issue(path@, expected@, actual@).message);
    }
    r
}

/// Appends the issues of checking `value` against `ty` at `path`.
fn validate_type(ty: &Type, value: &Document, path: &Path, issues: &mut Vec<ValidationIssue>)
    ensures
        issues_view(final(issues)@) == issues_view(old(issues)@) + type_issues(*ty, value@, path@),
    decreases value, 1nat,
{
    proof {
        lemma_view_parts(*value);
    }
    match value {
        Document::List(items) => {
            if let Type::List(e) = ty {
                let ghost iv = value@->List_0;
                let mut i: usize = 0;
                while i < items.len()
                    invariant
                        i <= items@.len(),
                        *value == Document::List(*items),
                        iv.len() == items@.len(),
                        forall|j: int| 0 <= j < iv.len() ==> #[trigger] iv[j] == items@[j]@,
                        issues_view(issues@) == issues_view(old(issues)@) + items_issues(**e, iv, path@, i as nat),
                    decreases items@.len() - i,
                {
                    proof {
                        assert(decreases_to!(*value => value->List_0));
                        assert(decreases_to!(*items => items@));
                        assert(decreases_to!(items@ => items@[i as int]));
                    }
                    let p = path.index(i);
                    validate_type(e, &items[i], &p, issues);
                    proof {
                        assert(issues_view(issues@) =~= issues_view(old(issues)@) + items_issues(
                            **e,
                            iv,
                            path@,
                            (i + 1) as nat,
                        ));
                    }
                    i = i + 1;
                }
                return;
            }
        },
        Document::Mapping(es) => {
            if let Type::Mapping(_, vt) = ty {
                let ghost ev = value@->Mapping_0;
                let mut i: usize = 0;
                while i < es.len()
                    invariant
                        i <= es@.len(),
                        *value == Document::Mapping(*es),
                        ev.len() == es@.len(),
                        forall|j: int| 0 <= j < ev.len() ==> #[trigger] ev[j] == (es@[j].0@, es@[j].1@),
                        issues_view(issues@) == issues_view(old(issues)@) + entries_issues(**vt, ev, path@, i as nat),
                    decreases es@.len() - i,
                {
                    proof {
                        assert(decreases_to!(*value => value->Mapping_0));
                        assert(decreases_to!(*es => es@));
                        assert(decreases_to!(es@ => es@[i as int]));
                        assert(decreases_to!(es@[i as int] => es@[i as int].1));
                    }
                    let p = path.field(es[i].0.as_str());
                    validate_type(vt, &es[i].1, &p, issues);
                    proof {
                        assert(issues_view(issues@) =~= issues_view(old(issues)@) + entries_issues(
                            **vt,
                            ev,
                            path@,
                            (i + 1) as nat,
                        ));
                    }
                    i = i + 1;
                }
                return;
            }
        },
        Document::String(s) => {
            if let Type::Timestamp = ty {
                let cs = chars_of(s.as_str());
                if !is_rfc3339(cs.as_slice()) {
                    let mut actual = String::new();
                    push_str(&mut actual, "malformed timestamp string ");
                    let d = debug_str(s.as_str());
                    push_str(&mut actual, d.as_str());
                    let x = mismatch(path, "timestamp (RFC 3339)".to_string(), actual);
                    push_issue(issues, x);
                    proof {
                        assert(issues_view(final(issues)@) =~= issues_view(old(issues)@) + type_issues(*ty, value@, path@));
                    }
                } else {
                    proof {
                        assert(issues_view(issues@) =~= issues_view(issues@) + Seq::<IssueView>::empty());
                    }
                }
                return;
            }
        },
        _ => {},
    }
    let fits = match (ty, value) {
        (Type::Bool, Document::Bool(_)) => true,
        (Type::Integer, Document::Integer(_)) => true,
        (Type::Float, Document::Float(_)) => true,
        (Type::String, Document::String(_)) => true,
        (Type::Bytes, Document::Bytes(_)) => true,
        _ => false,
    };
    if fits {
        proof {
            assert(issues_view(issues@) =~= issues_view(issues@) + Seq::<IssueView>::empty());
        }
    } else {
        let x = mismatch(path, ty.to_string(), value.kind_name().to_string());
        push_issue(issues, x);
        proof {
            assert(issues_view(final(issues)@) =~= issues_view(old(issues)@) + type_issues(*ty, value@, path@));
        }
    }
}

/// The number a range constraint compares: an integer converted to the
/// nearest double, or a double.
pub open spec fn range_value(v: DocView) -> Option<u64> {
    match v {
        DocView::Integer(i) => Some(f64_bits_of_int(i)),
        DocView::Float(f) => Some(f),
        _ => None,
    }
}

/// The length a length constraint compares: characters of a string, items
/// of a list, bytes, or map entries.
pub open spec fn length_value(v: DocView) -> Option<nat> {
    match v {
        DocView::String(s) => Some(s.len()),
        DocView::List(items) => Some(items.len()),
        DocView::Bytes(b) => Some(b.len()),
        DocView::Mapping(es) => Some(es.len()),
        _ => None,
    }
}

/// A string, list, map or byte string with nothing in it.
pub open spec fn is_empty_value(v: DocView) -> bool {
    match v {
        DocView::String(s) => s.len() == 0,
        DocView::List(items) => items.len() == 0,
        DocView::Mapping(es) => es.len() == 0,
        DocView::Bytes(b) => b.len() == 0,
        _ => false,
    }
}

/// `[lo, hi]`.
pub open spec fn interval_text(lo: Seq<char>, hi: Seq<char>) -> Seq<char> {
    "["@ + lo + ", "@ + hi + "]"@
}

/// A double bound's text, or `default` when absent.
pub open spec fn float_bound_text(b: Option<u64>, rf: spec_fn(u64) -> Seq<char>, default: Seq<char>) -> Seq<char> {
    match b {
        Some(x) => rf(x),
        None => default,
    }
}

/// A length bound's text, or `default` when absent.
pub open spec fn length_bound_text(b: Option<u64>, default: Seq<char>) -> Seq<char> {
    match b {
        Some(x) => decimal(x as nat),
        None => default,
    }
}

/// Whether `n` lies outside the double bounds.
pub open spec fn outside_range(n: u64, min: Option<u64>, max: Option<u64>) -> bool {
    (min matches Some(m) && f64_lt(n, m)) || (max matches Some(m) && f64_lt(m, n))
}

/// Whether `len` lies outside the length bounds.
pub open spec fn outside_length(len: nat, min: Option<u64>, max: Option<u64>) -> bool {
    (min matches Some(m) && len < m) || (max matches Some(m) && len > m)
}

/// The outcome of one constraint on `v` at `path`: issues, or the name of
/// a grammar that cannot be checked.
pub open spec fn constraint_outcome(
    c: ConstraintView,
    v: DocView,
    path: Seq<SegView>,
    rf: spec_fn(u64) -> Seq<char>,
) -> Result<Seq<IssueView>, Seq<char>> {
    match c {
        ConstraintView::Range { min, max } => match range_value(v) {
            Some(n) => if outside_range(n, min, max) {
                let interval = interval_text(
                    float_bound_text(min, rf, "-inf"@),
                    float_bound_text(max, rf, "+inf"@),
                );
                Ok(
                    seq![error_issue(path, "validate.constraint.range"@, "value "@ + rf(n) + " out of range "@ + interval, interval, rf(n))],
                )
            } else {
                Ok(Seq::empty())
            },
            None => Ok(Seq::empty()),
        },
        ConstraintView::Length { min, max } => match length_value(v) {
            Some(len) => if outside_length(len, min, max) {
                let interval = interval_text(length_bound_text(min, "0"@), length_bound_text(max, "+inf"@));
                Ok(
                    seq![error_issue(path, "validate.constraint.length"@, "length "@ + decimal(len) + " out of range "@ + interval, interval, decimal(len))],
                )
            } else {
                Ok(Seq::empty())
            },
            None => Ok(Seq::empty()),
        },
        ConstraintView::Pattern { grammar } => match v {
            DocView::String(s) => if grammar == "identifier"@ {
                if is_identifier_spec(s) {
                    Ok(Seq::empty())
                } else {
                    Ok(
                        seq![error_issue(path, "validate.constraint.pattern"@, str_debug(s) + " does not match the identifier grammar"@, "identifier"@, s)],
                    )
                }
            } else {
                Err(grammar)
            },
            _ => Ok(Seq::empty()),
        },
        ConstraintView::NonEmpty => if is_empty_value(v) {
            Ok(
                seq![error_issue(path, "validate.constraint.non-empty"@, "value must not be empty"@, "non-empty"@, "empty"@)],
            )
        } else {
            Ok(Seq::empty())
        },
        ConstraintView::Custom { .. } => Ok(Seq::empty()),
    }
}

/// The outcome of the constraints `cs`, in order, stopping at the first
/// that cannot be checked.
pub open spec fn constraints_outcome(
    cs: Seq<ConstraintView>,
    v: DocView,
    path: Seq<SegView>,
    rf: spec_fn(u64) -> Seq<char>,
) -> Result<Seq<IssueView>, Seq<char>>
    decreases cs.len(),
{
    if cs.len() == 0 {
        Ok(Seq::empty())
    } else {
        match constraints_outcome(cs.drop_last(), v, path, rf) {
            Err(g) => Err(g),
            Ok(acc) => match constraint_outcome(cs.last(), v, path, rf) {
                Err(g) => Err(g),
                Ok(x) => Ok(acc + x),
            },
        }
    }
}

/// The outcome of checking a present field's value: its type issues, then
/// its constraints' issues.
pub open spec fn field_outcome(
    f: FieldView,
    v: DocView,
    path: Seq<SegView>,
    rf: spec_fn(u64) -> Seq<char>,
) -> Result<Seq<IssueView>, Seq<char>> {
    match constraints_outcome(f.constraints, v, path, rf) {
        Err(g) => Err(g),
        Ok(x) => Ok(type_issues(f.ty, v, path) + x),
    }
}

/// A required field that the document lacks.
pub open spec fn missing_issue(name: Seq<char>) -> IssueView {
    error_issue(
        seq![SegView::Field(name)],
        "validate.field.missing"@,
        "required field "@ + str_debug(name) + " is missing"@,
        "present"@,
        "absent"@,
    )
}

/// The outcome of one schema field against a map document.
pub open spec fn field_step(f: FieldView, doc: DocView, rf: spec_fn(u64) -> Seq<char>) -> Result<
    Seq<IssueView>,
    Seq<char>,
> {
    match lookup(doc, f.name) {
        Some(v) => field_outcome(f, v, seq![SegView::Field(f.name)], rf),
        None => if f.required {
            Ok(seq![missing_issue(f.name)])
        } else {
            Ok(Seq::empty())
        },
    }
}

/// The outcome of the schema fields `fs`, in order.
pub open spec fn fields_outcome(fs: Seq<FieldView>, doc: DocView, rf: spec_fn(u64) -> Seq<char>) -> Result<
    Seq<IssueView>,
    Seq<char>,
>
    decreases fs.len(),
{
    if fs.len() == 0 {
        Ok(Seq::empty())
    } else {
        match fields_outcome(fs.drop_last(), doc, rf) {
            Err(g) => Err(g),
            Ok(acc) => match field_step(fs.last(), doc, rf) {
                Err(g) => Err(g),
                Ok(x) => Ok(acc + x),
            },
        }
    }
}

/// The outcome of validating `doc` against the fields `fs`: the issues
/// found, or the name of a pattern grammar that cannot be checked.
pub open spec fn validate_spec(fs: Seq<FieldView>, doc: DocView, rf: spec_fn(u64) -> Seq<char>) -> Result<
    Seq<IssueView>,
    Seq<char>,
> {
    match doc {
        DocView::Mapping(_) => fields_outcome(fs, doc, rf),
        _ => Ok(
            seq![error_issue(Seq::empty(), "validate.document.not-a-map"@, "expected a map document, found "@ + kind_name_of(doc), "map"@, kind_name_of(doc))],
        ),
    }
}

fn make_issue(path: &Path, code: &str, message: String, expected: String, actual: String) -> (r: ValidationIssue)
    ensures
        r@ == error_issue(path@, code@, message@, expected@, actual@),
{
    ValidationIssue {
        path: path.clone(),
        code: code.to_string(),
        severity: Severity::Error,
        message,
        expected: Some(expected),
        actual: Some(actual),
    }
}

fn interval_string(lo: &String, hi: &String) -> (r: String)
    ensures
        r@ == interval_text(lo@, hi@),
{
    let mut r = String::new();
    push_str(&mut r, "[");
    push_str(&mut r, lo.as_str());
    push_str(&mut r, ", ");
    push_str(&mut r, hi.as_str());
    push_str(&mut r, "]");
    proof {
        assert(r@ =~= interval_text(lo@, hi@));
    }
    r
}

fn float_bound_string<R: Fn(u64) -> String>(b: Option<u64>, render: &R, default: &str) -> (r: String)
    requires
        renders_floats(*render),
    ensures
        r@ == float_bound_text(b, |x: u64| rendered(*render, x), default@),
{
    match b {
        Some(x) => render_bits(render, x),
        None => default.to_string(),
    }
}

fn length_bound_string(b: Option<u64>, default: &str) -> (r: String)
    ensures
        r@ == length_bound_text(b, default@),
{
    match b {
        Some(x) => decimal_string(x),
        None => default.to_string(),
    }
}

/// Appends the issues of one constraint on `value`, or fails on a grammar
/// that cannot be checked.
fn validate_constraint<R: Fn(u64) -> String>(
    constraint: &Constraint,
    value: &Document,
    path: &Path,
    issues: &mut Vec<ValidationIssue>,
    render: &R,
) -> (r: Result<(), ValidateError>)
    requires
        renders_floats(*render),
    ensures
        match constraint_outcome(constraint@, value@, path@, |x: u64| rendered(*render, x)) {
            Ok(x) => r is Ok && issues_view(final(issues)@) == issues_view(old(issues)@) + x,
            Err(g) => r matches Err(e) && e->grammar@ == g && e->reason@ == grammar_reason(),
        },
{
    let ghost rf = |x: u64| rendered(*render, x);
    proof {
        lemma_view_parts(*value);
    }
    match constraint {
        Constraint::Range { min, max } => {
            let n = match value {
                Document::Integer(i) => Some(i64_to_f64_bits(*i)),
                Document::Float(f) => Some(*f),
                _ => None,
            };
            if let Some(n) = n {
                let below = match min {
                    Some(m) => lt(n, *m),
                    None => false,
                };
                let above = match max {
                    Some(m) => lt(*m, n),
                    None => false,
                };
                if below || above {
                    let lo = float_bound_string(*min, render, "-inf");
                    let hi = float_bound_string(*max, render, "+inf");
                    let interval = interval_string(&lo, &hi);
                    let shown = render_bits(render, n);
                    let mut message = String::new();
                    push_str(&mut message, "value ");
                    push_str(&mut message, shown.as_str());
                    push_str(&mut message, " out of range ");
                    push_str(&mut message, interval.as_str());
                    let expected = interval.clone();
                    let x = make_issue(path, "validate.constraint.range", message, expected, shown);
                    push_issue(issues, x);
                    proof {
                        assert(x@.message =~= "value "@ + rf(n) + " out of range "@ + interval@);
                    }
                    return Ok(());
                }
            }
        },
        Constraint::Length { min, max } => {
            let len: Option<u64> = match value {
                Document::String(s) => Some(chars_of(s.as_str()).len() as u64),
                Document::List(items) => Some(items.len() as u64),
                Document::Bytes(b) => Some(b.len() as u64),
                Document::Mapping(es) => Some(es.len() as u64),
                _ => None,
            };
            if let Some(len) = len {
                let below = match min {
                    Some(m) => len < *m,
                    None => false,
                };
                let above = match max {
                    Some(m) => len > *m,
                    None => false,
                };
                if below || above {
                    let lo = length_bound_string(*min, "0");
                    let hi = length_bound_string(*max, "+inf");
                    let interval = interval_string(&lo, &hi);
                    let shown = decimal_string(len);
                    let mut message = String::new();
                    push_str(&mut message, "length ");
                    push_str(&mut message, shown.as_str());
                    push_str(&mut message, " out of range ");
                    push_str(&mut message, interval.as_str());
                    let expected = interval.clone();
                    let x = make_issue(path, "validate.constraint.length", message, expected, shown);
                    push_issue(issues, x);
                    proof {
                        assert(x@.message =~= "length "@ + decimal(len as nat) + " out of range "@ + interval@);
                    }
                    return Ok(());
                }
            }
        },
        Constraint::Pattern { grammar } => {
            if let Document::String(s) = value {
                if str_eq(grammar.as_str(), "identifier") {
                    let cs = chars_of(s.as_str());
                    if !is_identifier(cs.as_slice()) {
                        let d = debug_str(s.as_str());
                        let mut message = d;
                        push_str(&mut message, " does not match the identifier grammar");
                        let x = make_issue(path, "validate.constraint.pattern", message, "identifier".to_string(), s.clone());
                        push_issue(issues, x);
                        return Ok(());
                    }
                } else {
                    return Err(ValidateError::InvalidPatternGrammar {
                        grammar: grammar.clone(),
                        reason: "unrecognized grammar name; only \"identifier\" is supported in Phase 1".to_string(),
                    });
                }
            }
        },
        Constraint::NonEmpty => {
            let is_empty = match value {
                Document::String(s) => s.as_str().unicode_len() == 0,
                Document::List(items) => items.len() == 0,
                Document::Mapping(es) => es.len() == 0,
                Document::Bytes(b) => b.len() == 0,
                _ => false,
            };
            if is_empty {
                let x = make_issue(
                    path,
                    "validate.constraint.non-empty",
                    "value must not be empty".to_string(),
                    "non-empty".to_string(),
                    "empty".to_string(),
                );
                push_issue(issues, x);
                return Ok(());
            }
        },
        Constraint::Custom { .. } => {},
    }
    proof {
        assert(issues_view(issues@) =~= issues_view(issues@) + Seq::<IssueView>::empty());
    }
    Ok(())
}

/// Appends the issues of a present field's value: type first, then each
/// constraint in order.
fn validate_field<R: Fn(u64) -> String>(
    field: &Field,
    value: &Document,
    path: &Path,
    issues: &mut Vec<ValidationIssue>,
    render: &R,
) -> (r: Result<(), ValidateError>)
    requires
        renders_floats(*render),
    ensures
        match field_outcome(field@, value@, path@, |x: u64| rendered(*render, x)) {
            Ok(x) => r is Ok && issues_view(final(issues)@) == issues_view(old(issues)@) + x,
            Err(g) => r matches Err(e) && e->grammar@ == g && e->reason@ == grammar_reason(),
        },
{
    let ghost rf = |x: u64| rendered(*render, x);
    validate_type(field.ty(), value, path, issues);
    let ghost after_type = issues_view(issues@);
    let cs = field.constraints();
    let ghost cv = cs@.map_values(|c: Constraint| c@);
    let mut i: usize = 0;
    while i < cs.len()
        invariant
            i <= cs@.len(),
            cv == cs@.map_values(|c: Constraint| c@),
            cv == field@.constraints,
            renders_floats(*render),
            rf == (|x: u64| rendered(*render, x)),
            constraints_outcome(cv.take(i as int), value@, path@, rf) matches Ok(x) && issues_view(issues@)
                == after_type + x,
        decreases cs@.len() - i,
    {
        proof {
            assert(cv.take(i as int + 1).drop_last() =~= cv.take(i as int));
            assert(cv.take(i as int + 1).last() == cs@[i as int]@);
        }
        let ghost before = issues_view(issues@);
        match validate_constraint(&cs[i], value, path, issues, render) {
            Ok(()) => {},
            Err(e) => {
                proof {
                    assert(cv.take(cs@.len() as int) =~= cv);
                    lemma_constraints_err(cv, value@, path@, rf, i as int);
                }
                return Err(e);
            },
        }
        proof {
            assert(issues_view(issues@) =~= after_type + constraints_outcome(cv.take(i as int + 1), value@, path@, rf)->Ok_0);
        }
        i = i + 1;
    }
    proof {
        assert(cv.take(cs@.len() as int) =~= cv);
        assert(issues_view(issues@) =~= issues_view(old(issues)@) + (type_issues(field@.ty, value@, path@)
            + constraints_outcome(cv, value@, path@, rf)->Ok_0));
    }
    Ok(())
}

/// A constraint that fails to be checkable makes every longer run of
/// constraints fail with it.
proof fn lemma_constraints_err(
    cs: Seq<ConstraintView>,
    v: DocView,
    path: Seq<SegView>,
    rf: spec_fn(u64) -> Seq<char>,
    i: int,
)
    requires
        0 <= i < cs.len(),
        constraints_outcome(cs.take(i), v, path, rf) is Ok,
        constraint_outcome(cs[i], v, path, rf) is Err,
    ensures
        constraints_outcome(cs, v, path, rf) == constraint_outcome(cs[i], v, path, rf),
    decreases cs.len(),
{
    if i == cs.len() - 1 {
        assert(cs.drop_last() =~= cs.take(i));
    } else {
        let d = cs.drop_last();
        assert(d.take(i) =~= cs.take(i));
        assert(d[i] == cs[i]);
        lemma_constraints_err(d, v, path, rf, i);
    }
}

/// Validates `doc` against `schema`: every required field is present,
/// every present field's value matches its declared type (recursively for
/// lists and maps), and every declared constraint on it holds. Failures
/// become issues of the result; the error is kept for a pattern grammar
/// that cannot be checked at all. Doubles in messages are rendered by
/// `render`.
pub fn validate<R: Fn(u64) -> String>(schema: &Schema, doc: &Document, render: &R) -> (r: Result<
    ValidationResult,
    ValidateError,
>)
    requires
        renders_floats(*render),
    ensures
        match validate_spec(schema.fields_spec(), doc@, |x: u64| rendered(*render, x)) {
            Ok(x) => r matches Ok(res) && res@ == x,
            Err(g) => r matches Err(e) && e->grammar@ == g && e->reason@ == grammar_reason(),
        },
{
    let ghost rf = |x: u64| rendered(*render, x);
    let mut issues: Vec<ValidationIssue> = Vec::new();
    let root = Path::root();
    match doc.as_map() {
        Some(_) => {
            let fields = schema.fields();
            let ghost fs = schema.fields_spec();
            let mut i: usize = 0;
            while i < fields.len()
                invariant
                    i <= fields@.len(),
                    fs == fields_view(fields@),
                    fs == schema.fields_spec(),
                    doc@ is Mapping,
                    root@ == Seq::<SegView>::empty(),
                    renders_floats(*render),
                    rf == (|x: u64| rendered(*render, x)),
                    fields_outcome(fs.take(i as int), doc@, rf) matches Ok(x) && issues_view(issues@) == x,
                decreases fields@.len() - i,
            {
                let field = &fields[i];
                proof {
                    assert(fs.take(i as int + 1).drop_last() =~= fs.take(i as int));
                    assert(fs.take(i as int + 1).last() == field@);
                }
                let path = root.field(field.name());
                proof {
                    assert(path@ =~= seq![SegView::Field(field@.name)]);
                }
                match doc.get(field.name()) {
                    Some(value) => {
                        match validate_field(field, value, &path, &mut issues, render) {
                            Ok(()) => {},
                            Err(e) => {
                                proof {
                                    assert(fs.take(fs.len() as int) =~= fs);
                                    lemma_fields_err(fs, doc@, rf, i as int);
                                }
                                return Err(e);
                            },
                        }
                    },
                    None => {
                        if field.is_required() {
                            let d = debug_str(field.name());
                            let mut message = String::new();
                            push_str(&mut message, "required field ");
                            push_str(&mut message, d.as_str());
                            push_str(&mut message, " is missing");
                            let x = make_issue(
                                &path,
                                "validate.field.missing",
                                message,
                                "present".to_string(),
                                "absent".to_string(),
                            );
                            push_issue(&mut issues, x);
                            proof {
                                assert(x@ == missing_issue(field@.name));
                            }
                        } else {
                            proof {
                                assert(issues_view(issues@) =~= issues_view(issues@) + Seq::<IssueView>::empty());
                            }
                        }
                    },
                }
                i = i + 1;
            }
            proof {
                assert(fs.take(fs.len() as int) =~= fs);
            }
        },
        None => {
            let mut message = String::new();
            push_str(&mut message, "expected a map document, found ");
            push_str(&mut message, doc.kind_name());
            let x = make_issue(&root, "validate.document.not-a-map", message, "map".to_string(), doc.kind_name().to_string());
            push_issue(&mut issues, x);
            proof {
                assert(issues_view(issues@) =~= seq![x@]);
            }
        },
    }
    Ok(ValidationResult::new(issues))
}

/// A field that fails to be checkable makes every longer run of fields fail
/// with it.
proof fn lemma_fields_err(fs: Seq<FieldView>, doc: DocView, rf: spec_fn(u64) -> Seq<char>, i: int)
    requires
        0 <= i < fs.len(),
        fields_outcome(fs.take(i), doc, rf) is Ok,
        field_step(fs[i], doc, rf) is Err,
    ensures
        fields_outcome(fs, doc, rf) == field_step(fs[i], doc, rf),
    decreases fs.len(),
{
    if i == fs.len() - 1 {
        assert(fs.drop_last() =~= fs.take(i));
    } else {
        let d = fs.drop_last();
        assert(d.take(i) =~= fs.take(i));
        assert(d[i] == fs[i]);
        lemma_fields_err(d, doc, rf, i);
    }
}

/// A `Pattern` constraint whose grammar validation does not know, met by
/// a string value: the one thing validation cannot check.
pub open spec fn unknown_grammar_met(c: ConstraintView, v: DocView) -> bool {
    c matches ConstraintView::Pattern { grammar } && grammar != "identifier"@ && v is String
}

/// A field present in `doc` whose value meets a pattern of unknown grammar.
pub open spec fn field_meets_unknown_grammar(f: FieldView, doc: DocView) -> bool {
    lookup(doc, f.name) matches Some(v) && exists|j: int|
        0 <= j < f.constraints.len() && unknown_grammar_met(#[trigger] f.constraints[j], v)
}

proof fn lemma_constraints_unavailable(cs: Seq<ConstraintView>, v: DocView, path: Seq<SegView>, rf: spec_fn(u64) -> Seq<char>)
    ensures
        constraints_outcome(cs, v, path, rf) is Err <==> exists|j: int|
            0 <= j < cs.len() && unknown_grammar_met(#[trigger] cs[j], v),
    decreases cs.len(),
{
    if cs.len() > 0 {
        let init = cs.drop_last();
        lemma_constraints_unavailable(init, v, path, rf);
        if exists|j: int| 0 <= j < init.len() && unknown_grammar_met(#[trigger] init[j], v) {
            let j = choose|j: int| 0 <= j < init.len() && unknown_grammar_met(#[trigger] init[j], v);
            assert(cs[j] == init[j]);
        }
        if exists|j: int| 0 <= j < cs.len() && unknown_grammar_met(#[trigger] cs[j], v) {
            let j = choose|j: int| 0 <= j < cs.len() && unknown_grammar_met(#[trigger] cs[j], v);
            if j < init.len() {
                assert(init[j] == cs[j]);
            }
        }
    }
}

proof fn lemma_fields_unavailable(fs: Seq<FieldView>, doc: DocView, rf: spec_fn(u64) -> Seq<char>)
    ensures
        fields_outcome(fs, doc, rf) is Err <==> exists|k: int|
            0 <= k < fs.len() && field_meets_unknown_grammar(#[trigger] fs[k], doc),
    decreases fs.len(),
{
    if fs.len() > 0 {
        let init = fs.drop_last();
        lemma_fields_unavailable(init, doc, rf);
        let f = fs.last();
        if let Some(v) = lookup(doc, f.name) {
            lemma_constraints_unavailable(f.constraints, v, seq![SegView::Field(f.name)], rf);
        }
        if exists|k: int| 0 <= k < init.len() && field_meets_unknown_grammar(#[trigger] init[k], doc) {
            let k = choose|k: int| 0 <= k < init.len() && field_meets_unknown_grammar(#[trigger] init[k], doc);
            assert(fs[k] == init[k]);
        }
        if exists|k: int| 0 <= k < fs.len() && field_meets_unknown_grammar(#[trigger] fs[k], doc) {
            let k = choose|k: int| 0 <= k < fs.len() && field_meets_unknown_grammar(#[trigger] fs[k], doc);
            if k < init.len() {
                assert(init[k] == fs[k]);
            }
        }
    }
}

/// Law: validation cannot run exactly when the document is a map and some
/// field present in it carries a `Pattern` constraint of a grammar other
/// than `identifier` while its value is a string; every other document
/// gets a list of issues.
pub proof fn law_validate_unavailable(fs: Seq<FieldView>, doc: DocView, rf: spec_fn(u64) -> Seq<char>)
    ensures
        validate_spec(fs, doc, rf) is Err <==> doc is Mapping && exists|k: int|
            0 <= k < fs.len() && field_meets_unknown_grammar(#[trigger] fs[k], doc),
{
    lemma_fields_unavailable(fs, doc, rf);
}

/// Issues of severity `Error`, none of them a missing field.
pub open spec fn plain_errors(v: Seq<IssueView>) -> bool {
    forall|i: int|
        0 <= i < v.len() ==> (#[trigger] v[i]).severity == Severity::Error && v[i].code != "validate.field.missing"@
}

proof fn lemma_plain_concat(a: Seq<IssueView>, b: Seq<IssueView>)
    requires
        plain_errors(a),
        plain_errors(b),
    ensures
        plain_errors(a + b),
{
    assert forall|i: int| 0 <= i < (a + b).len() implies (#[trigger] (a + b)[i]).severity == Severity::Error && (a
        + b)[i].code != "validate.field.missing"@ by {
        if i < a.len() {
            assert((a + b)[i] == a[i]);
        } else {
            assert((a + b)[i] == b[i - a.len()]);
        }
    }
}

proof fn lemma_codes_differ()
    ensures
        "validate.type.mismatch"@ != "validate.field.missing"@,
        "validate.constraint.range"@ != "validate.field.missing"@,
        "validate.constraint.length"@ != "validate.field.missing"@,
        "validate.constraint.pattern"@ != "validate.field.missing"@,
        "validate.constraint.non-empty"@ != "validate.field.missing"@,
{
    reveal_strlit("validate.type.mismatch");
    reveal_strlit("validate.constraint.range");
    reveal_strlit("validate.constraint.length");
    reveal_strlit("validate.constraint.pattern");
    reveal_strlit("validate.constraint.non-empty");
    reveal_strlit("validate.field.missing");
    assert("validate.type.mismatch"@[9] != "validate.field.missing"@[9]);
    assert("validate.constraint.range"@[9] != "validate.field.missing"@[9]);
    assert("validate.constraint.length"@[9] != "validate.field.missing"@[9]);
    assert("validate.constraint.pattern"@[9] != "validate.field.missing"@[9]);
    assert("validate.constraint.non-empty"@[9] != "validate.field.missing"@[9]);
}

proof fn lemma_type_plain(ty: Type, v: DocView, path: Seq<SegView>)
    ensures
        plain_errors(type_issues(ty, v, path)),
    decreases v, 1nat,
{
    lemma_codes_differ();
    match (ty, v) {
        (Type::List(e), DocView::List(items)) => lemma_items_plain(*e, items, path, items.len()),
        (Type::Mapping(_, vt), DocView::Mapping(es)) => lemma_entries_plain(*vt, es, path, es.len()),
        _ => {},
    }
}

proof fn lemma_items_plain(e: Type, items: Seq<DocView>, path: Seq<SegView>, n: nat)
    ensures
        plain_errors(items_issues(e, items, path, n)),
    decreases items, n,
{
    if n > 0 && n <= items.len() {
        assert(decreases_to!(items => items[n - 1]));
        lemma_items_plain(e, items, path, (n - 1) as nat);
        lemma_type_plain(e, items[n - 1], path.push(SegView::Index((n - 1) as usize)));
        lemma_plain_concat(
            items_issues(e, items, path, (n - 1) as nat),
            type_issues(e, items[n - 1], path.push(SegView::Index((n - 1) as usize))),
        );
    }
}

proof fn lemma_entries_plain(vt: Type, es: Seq<(Seq<char>, DocView)>, path: Seq<SegView>, n: nat)
    ensures
        plain_errors(entries_issues(vt, es, path, n)),
    decreases es, n,
{
    if n > 0 && n <= es.len() {
        assert(decreases_to!(es => es[n - 1]));
        assert(decreases_to!(es[n - 1] => es[n - 1].1));
        lemma_entries_plain(vt, es, path, (n - 1) as nat);
        lemma_type_plain(vt, es[n - 1].1, path.push(SegView::Field(es[n - 1].0)));
        lemma_plain_concat(
            entries_issues(vt, es, path, (n - 1) as nat),
            type_issues(vt, es[n - 1].1, path.push(SegView::Field(es[n - 1].0))),
        );
    }
}

proof fn lemma_constraints_plain(cs: Seq<ConstraintView>, v: DocView, path: Seq<SegView>, rf: spec_fn(u64) -> Seq<char>)
    ensures
        constraints_outcome(cs, v, path, rf) matches Ok(x) ==> plain_errors(x),
    decreases cs.len(),
{
    if cs.len() > 0 {
        lemma_constraints_plain(cs.drop_last(), v, path, rf);
        lemma_codes_differ();
        if let Ok(acc) = constraints_outcome(cs.drop_last(), v, path, rf) {
            if let Ok(x) = constraint_outcome(cs.last(), v, path, rf) {
                assert(plain_errors(x));
                lemma_plain_concat(acc, x);
            }
        }
    }
}

/// What one schema field contributes: issues of severity `Error`, and a
/// missing-field issue exactly when the field is required and absent, and
/// then as its only issue.
proof fn lemma_field_step(f: FieldView, doc: DocView, rf: spec_fn(u64) -> Seq<char>)
    ensures
        field_step(f, doc, rf) matches Ok(x) ==> {
            &&& forall|i: int| 0 <= i < x.len() ==> (#[trigger] x[i]).severity == Severity::Error
            &&& forall|i: int|
                0 <= i < x.len() && (#[trigger] x[i]).code == "validate.field.missing"@ ==> x[i] == missing_issue(
                    f.name,
                ) && f.required && lookup(doc, f.name) is None
            &&& (f.required && lookup(doc, f.name) is None) ==> x == seq![missing_issue(f.name)]
        },
{
    if let Some(v) = lookup(doc, f.name) {
        let path = seq![SegView::Field(f.name)];
        lemma_constraints_plain(f.constraints, v, path, rf);
        lemma_type_plain(f.ty, v, path);
        if let Ok(x) = constraints_outcome(f.constraints, v, path, rf) {
            lemma_plain_concat(type_issues(f.ty, v, path), x);
        }
    }
}

/// A required field that the document lacks.
pub open spec fn missing_required(f: FieldView, doc: DocView) -> bool {
    f.required && lookup(doc, f.name) is None
}

/// The missing-field issue of a required field among `fs` that the
/// document lacks.
pub open spec fn explained_missing(x: IssueView, fs: Seq<FieldView>, doc: DocView) -> bool {
    exists|k: int| 0 <= k < fs.len() && x == missing_issue(fs[k].name) && missing_required(#[trigger] fs[k], doc)
}

proof fn lemma_fields_issues(fs: Seq<FieldView>, doc: DocView, rf: spec_fn(u64) -> Seq<char>)
    ensures
        fields_outcome(fs, doc, rf) matches Ok(acc) ==> {
            &&& forall|i: int| 0 <= i < acc.len() ==> (#[trigger] acc[i]).severity == Severity::Error
            &&& forall|i: int|
                0 <= i < acc.len() && (#[trigger] acc[i]).code == "validate.field.missing"@ ==> explained_missing(
                    acc[i],
                    fs,
                    doc,
                )
            &&& forall|k: int|
                0 <= k < fs.len() && missing_required(#[trigger] fs[k], doc) ==> acc.contains(missing_issue(fs[k].name))
        },
    decreases fs.len(),
{
    if fs.len() > 0 {
        let init = fs.drop_last();
        let f = fs.last();
        lemma_fields_issues(init, doc, rf);
        lemma_field_step(f, doc, rf);
        if let Ok(acc) = fields_outcome(fs, doc, rf) {
            let a = fields_outcome(init, doc, rf)->Ok_0;
            let x = field_step(f, doc, rf)->Ok_0;
            assert(acc == a + x);
            assert forall|i: int| 0 <= i < acc.len() implies (#[trigger] acc[i]).severity == Severity::Error by {
                if i < a.len() {
                    assert(acc[i] == a[i]);
                } else {
                    assert(acc[i] == x[i - a.len()]);
                }
            }
            assert forall|i: int| 0 <= i < acc.len() && (#[trigger] acc[i]).code == "validate.field.missing"@ implies explained_missing(
                acc[i],
                fs,
                doc,
            ) by {
                if i < a.len() {
                    assert(acc[i] == a[i]);
                    assert(explained_missing(a[i], init, doc));
                    let k = choose|k: int|
                        0 <= k < init.len() && a[i] == missing_issue(init[k].name) && missing_required(
                            #[trigger] init[k],
                            doc,
                        );
                    assert(fs[k] == init[k]);
                } else {
                    assert(acc[i] == x[i - a.len()]);
                    assert(fs[fs.len() - 1] == f);
                    assert(missing_required(fs[fs.len() - 1], doc));
                }
            }
            assert forall|k: int| 0 <= k < fs.len() && missing_required(#[trigger] fs[k], doc) implies acc.contains(
                missing_issue(fs[k].name),
            ) by {
                if k < init.len() {
                    assert(init[k] == fs[k]);
                    assert(missing_required(init[k], doc));
                    let i = choose|i: int| 0 <= i < a.len() && a[i] == missing_issue(init[k].name);
                    assert(acc[i] == a[i]);
                } else {
                    assert(fs[k] == f);
                    assert(x == seq![missing_issue(f.name)]);
                    assert(acc[a.len() as int] == x[0]);
                }
            }
        }
    }
}

/// `x` holds a missing-field issue at `.name`.
pub open spec fn has_missing_issue(x: Seq<IssueView>, name: Seq<char>) -> bool {
    exists|i: int|
        0 <= i < x.len() && (#[trigger] x[i]).code == "validate.field.missing"@ && x[i].path == seq![
            SegView::Field(name),
        ]
}

/// The schema has a required field `name` that the document lacks.
pub open spec fn lacks_required(fs: Seq<FieldView>, doc: DocView, name: Seq<char>) -> bool {
    exists|k: int| 0 <= k < fs.len() && (#[trigger] fs[k]).name == name && fs[k].required && lookup(doc, name) is None
}

/// Law: what validation finds. A document that is not a map gets exactly
/// one issue, `validate.document.not-a-map` at the root. Every issue is of
/// severity `Error`. For a map document, there is a
/// `validate.field.missing` issue at `.name` exactly when the schema has a
/// required field `name` that the document lacks.
pub proof fn law_validate_issues(fs: Seq<FieldView>, doc: DocView, rf: spec_fn(u64) -> Seq<char>)
    ensures
        !(doc is Mapping) ==> validate_spec(fs, doc, rf) == Ok::<Seq<IssueView>, Seq<char>>(
            seq![error_issue(Seq::empty(), "validate.document.not-a-map"@, "expected a map document, found "@ + kind_name_of(doc), "map"@, kind_name_of(doc))],
        ),
        validate_spec(fs, doc, rf) matches Ok(x) ==> forall|i: int|
            0 <= i < x.len() ==> (#[trigger] x[i]).severity == Severity::Error,
        doc is Mapping ==> (validate_spec(fs, doc, rf) matches Ok(x) ==> forall|name: Seq<char>|
            #![trigger has_missing_issue(x, name)]
            #![trigger lacks_required(fs, doc, name)]
            has_missing_issue(x, name) <==> lacks_required(fs, doc, name)),
{
    lemma_fields_issues(fs, doc, rf);
    if doc is Mapping {
        if let Ok(x) = validate_spec(fs, doc, rf) {
            assert forall|name: Seq<char>| has_missing_issue(x, name) <==> lacks_required(fs, doc, name) by {
                if has_missing_issue(x, name) {
                    let i = choose|i: int|
                        0 <= i < x.len() && (#[trigger] x[i]).code == "validate.field.missing"@ && x[i].path == seq![
                            SegView::Field(name),
                        ];
                    assert(explained_missing(x[i], fs, doc));
                    let k = choose|k: int|
                        0 <= k < fs.len() && x[i] == missing_issue(fs[k].name) && missing_required(#[trigger] fs[k], doc);
                    assert(x[i].path[0] == SegView::Field(fs[k].name));
                    assert(x[i].path[0] == SegView::Field(name));
                    assert(fs[k].name == name);
                }
                if lacks_required(fs, doc, name) {
                    let k = choose|k: int|
                        0 <= k < fs.len() && (#[trigger] fs[k]).name == name && fs[k].required && lookup(doc, name) is None;
                    assert(missing_required(fs[k], doc));
                    assert(x.contains(missing_issue(fs[k].name)));
                    let i = choose|i: int| 0 <= i < x.len() && x[i] == missing_issue(fs[k].name);
                    assert(x[i].code == "validate.field.missing"@);
                    assert(x[i].path == seq![SegView::Field(name)]);
                }
            }
        }
    }
}

/// Law: a `Length` constraint on a value that has a length (a string, a
/// list, a byte string or a map) gives exactly one issue, coded
/// `validate.constraint.length` at the value's path, when the length is
/// below the minimum or above the maximum, and no issue otherwise; on any
/// other value it gives none.
pub proof fn law_length_constraint(
    min: Option<u64>,
    max: Option<u64>,
    v: DocView,
    path: Seq<SegView>,
    rf: spec_fn(u64) -> Seq<char>,
)
    ensures
        constraint_outcome(ConstraintView::Length { min, max }, v, path, rf) matches Ok(x) && match length_value(v) {
            Some(len) => if (min matches Some(m) && len < m) || (max matches Some(m) && len > m) {
                x.len() == 1 && x[0].code == "validate.constraint.length"@ && x[0].path == path && x[0].severity
                    == Severity::Error
            } else {
                x.len() == 0
            },
            None => x.len() == 0,
        },
{
}

/// Law: a `Range` constraint on a number (an integer taken as its nearest
/// double) gives exactly one issue, coded `validate.constraint.range` at
/// the value's path, when the number is below the minimum or above the
/// maximum as doubles compare, and no issue otherwise; on any other value
/// it gives none. `NonEmpty` gives exactly one issue, coded
/// `validate.constraint.non-empty`, exactly on an empty string, list, map
/// or byte string. A `Pattern` naming the `identifier` grammar gives
/// exactly one issue, coded `validate.constraint.pattern`, on a string that
/// is not an identifier and none on one that is; a pattern naming any other
/// grammar cannot be checked on a string and is answered with that
/// grammar's name; patterns pass every non-string. A `Custom` constraint
/// gives no issue.
pub proof fn law_constraint_checks(
    c: ConstraintView,
    v: DocView,
    path: Seq<SegView>,
    rf: spec_fn(u64) -> Seq<char>,
)
    ensures
        c matches ConstraintView::Range { min, max } ==> (constraint_outcome(c, v, path, rf) matches Ok(x) && if (
        range_value(v) matches Some(n) && ((min matches Some(m) && f64_lt(n, m)) || (max matches Some(m) && f64_lt(
            m,
            n,
        )))) {
            x.len() == 1 && x[0].code == "validate.constraint.range"@ && x[0].path == path && x[0].severity
                == Severity::Error
        } else {
            x.len() == 0
        }),
        c is NonEmpty ==> (constraint_outcome(c, v, path, rf) matches Ok(x) && if is_empty_value(v) {
            x.len() == 1 && x[0].code == "validate.constraint.non-empty"@ && x[0].path == path && x[0].severity
                == Severity::Error
        } else {
            x.len() == 0
        }),
        c matches ConstraintView::Pattern { grammar } ==> match v {
            DocView::String(s) => if grammar == "identifier"@ {
                constraint_outcome(c, v, path, rf) matches Ok(x) && if is_identifier_spec(s) {
                    x.len() == 0
                } else {
                    x.len() == 1 && x[0].code == "validate.constraint.pattern"@ && x[0].path == path
                        && x[0].severity == Severity::Error
                }
            } else {
                constraint_outcome(c, v, path, rf) == Err::<Seq<IssueView>, Seq<char>>(grammar)
            },
            _ => constraint_outcome(c, v, path, rf) == Ok::<Seq<IssueView>, Seq<char>>(Seq::empty()),
        },
        c is Custom ==> constraint_outcome(c, v, path, rf) == Ok::<Seq<IssueView>, Seq<char>>(Seq::empty()),
{
}

/// The value's kind is the one the type asks for (a timestamp being a
/// string).
pub open spec fn kind_fits(ty: Type, v: DocView) -> bool {
    match (ty, v) {
        (Type::Bool, DocView::Bool(_)) => true,
        (Type::Integer, DocView::Integer(_)) => true,
        (Type::Float, DocView::Float(_)) => true,
        (Type::String, DocView::String(_)) => true,
        (Type::Bytes, DocView::Bytes(_)) => true,
        (Type::Timestamp, DocView::String(_)) => true,
        (Type::List(_), DocView::List(_)) => true,
        (Type::Mapping(_, _), DocView::Mapping(_)) => true,
        _ => false,
    }
}

/// Law: a value of another kind than its type asks for gives exactly one
/// issue, coded `validate.type.mismatch` at the value's path, expecting the
/// type's text and finding the value's kind; a boolean, integer, double,
/// string or byte string of the asked kind gives none; a timestamp string
/// gives one `validate.type.mismatch` issue exactly when it is not RFC 3339.
pub proof fn law_type_check(ty: Type, v: DocView, path: Seq<SegView>)
    ensures
        !kind_fits(ty, v) ==> type_issues(ty, v, path).len() == 1 && type_issues(ty, v, path)[0].code
            == "validate.type.mismatch"@ && type_issues(ty, v, path)[0].path == path && type_issues(ty, v, path)[0].expected
            == Some(type_text(ty)) && type_issues(ty, v, path)[0].actual == Some(kind_name_of(v)),
        kind_fits(ty, v) && (ty is Bool || ty is Integer || ty is Float || ty is String || ty is Bytes) ==> type_issues(
            ty,
            v,
            path,
        ).len() == 0,
        (ty is Timestamp && v matches DocView::String(s)) ==> (if is_rfc3339_spec(v->String_0) {
            type_issues(ty, v, path).len() == 0
        } else {
            type_issues(ty, v, path).len() == 1 && type_issues(ty, v, path)[0].code == "validate.type.mismatch"@
                && type_issues(ty, v, path)[0].path == path
        }),
{
}

proof fn lemma_constraints_include(
    cs: Seq<ConstraintView>,
    v: DocView,
    path: Seq<SegView>,
    rf: spec_fn(u64) -> Seq<char>,
    j: int,
)
    requires
        0 <= j < cs.len(),
    ensures
        constraints_outcome(cs, v, path, rf) matches Ok(acc) ==> (constraint_outcome(cs[j], v, path, rf) matches Ok(
            x,
        ) && forall|i: int| 0 <= i < x.len() ==> acc.contains(#[trigger] x[i])),
    decreases cs.len(),
{
    if let Ok(acc) = constraints_outcome(cs, v, path, rf) {
        let init = cs.drop_last();
        let a = constraints_outcome(init, v, path, rf)->Ok_0;
        let y = constraint_outcome(cs.last(), v, path, rf)->Ok_0;
        assert(acc == a + y);
        if j < cs.len() - 1 {
            lemma_constraints_include(init, v, path, rf, j);
            assert(init[j] == cs[j]);
            let x = constraint_outcome(cs[j], v, path, rf)->Ok_0;
            assert forall|i: int| 0 <= i < x.len() implies acc.contains(#[trigger] x[i]) by {
                assert(a.contains(x[i]));
                let q = choose|q: int| 0 <= q < a.len() && a[q] == x[i];
                assert(acc[q] == a[q]);
            }
        } else {
            assert forall|i: int| 0 <= i < y.len() implies acc.contains(#[trigger] y[i]) by {
                assert(acc[a.len() + i] == y[i]);
            }
        }
    }
}

proof fn lemma_fields_include(fs: Seq<FieldView>, doc: DocView, rf: spec_fn(u64) -> Seq<char>, k: int)
    requires
        0 <= k < fs.len(),
    ensures
        fields_outcome(fs, doc, rf) matches Ok(acc) ==> (field_step(fs[k], doc, rf) matches Ok(x) && forall|i: int|
            0 <= i < x.len() ==> acc.contains(#[trigger] x[i])),
    decreases fs.len(),
{
    if let Ok(acc) = fields_outcome(fs, doc, rf) {
        let init = fs.drop_last();
        let a = fields_outcome(init, doc, rf)->Ok_0;
        let y = field_step(fs.last(), doc, rf)->Ok_0;
        assert(acc == a + y);
        if k < fs.len() - 1 {
            lemma_fields_include(init, doc, rf, k);
            assert(init[k] == fs[k]);
            let x = field_step(fs[k], doc, rf)->Ok_0;
            assert forall|i: int| 0 <= i < x.len() implies acc.contains(#[trigger] x[i]) by {
                assert(a.contains(x[i]));
                let q = choose|q: int| 0 <= q < a.len() && a[q] == x[i];
                assert(acc[q] == a[q]);
            }
        } else {
            assert forall|i: int| 0 <= i < y.len() implies acc.contains(#[trigger] y[i]) by {
                assert(acc[a.len() + i] == y[i]);
            }
        }
    }
}

/// Law: validation checks a `Length` minimum and maximum. When a field
/// present in a map document carries a `Length` constraint and its value's
/// length is below that minimum or above that maximum, the result has a
/// `validate.constraint.length` issue at the field's path.
pub proof fn law_length_violation_reported(
    fs: Seq<FieldView>,
    doc: DocView,
    rf: spec_fn(u64) -> Seq<char>,
    k: int,
    j: int,
)
    requires
        doc is Mapping,
        0 <= k < fs.len(),
        0 <= j < fs[k].constraints.len(),
        lookup(doc, fs[k].name) matches Some(v) && length_value(v) matches Some(len) && (fs[k].constraints[j] matches ConstraintView::Length {
            min,
            max,
        } && ((min matches Some(m) && len < m) || (max matches Some(m) && len > m))),
    ensures
        validate_spec(fs, doc, rf) matches Ok(x) ==> exists|i: int|
            0 <= i < x.len() && (#[trigger] x[i]).code == "validate.constraint.length"@ && x[i].path == seq![
                SegView::Field(fs[k].name),
            ],
{
    let f = fs[k];
    let v = lookup(doc, f.name)->Some_0;
    let path = seq![SegView::Field(f.name)];
    lemma_fields_include(fs, doc, rf, k);
    lemma_constraints_include(f.constraints, v, path, rf, j);
    if let Ok(x) = validate_spec(fs, doc, rf) {
        let c = f.constraints[j];
        law_length_constraint(c->Length_min, c->Length_max, v, path, rf);
        let cx = constraint_outcome(c, v, path, rf)->Ok_0;
        let cs_acc = constraints_outcome(f.constraints, v, path, rf)->Ok_0;
        assert(cs_acc.contains(cx[0]));
        let q = choose|q: int| 0 <= q < cs_acc.len() && cs_acc[q] == cx[0];
        let fx = field_step(f, doc, rf)->Ok_0;
        assert(fx == type_issues(f.ty, v, path) + cs_acc);
        assert(fx[type_issues(f.ty, v, path).len() + q] == cx[0]);
        assert(x.contains(fx[type_issues(f.ty, v, path).len() + q]));
        let i = choose|i: int| 0 <= i < x.len() && x[i] == cx[0];
        assert(x[i].code == "validate.constraint.length"@);
    }
}

} // verus!
