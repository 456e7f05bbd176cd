//! The schema language: types, constraints, fields, and schemas.
//!
//! A `Schema` is a versioned, ordered collection of `Field`s, each with a
//! `Type` and zero or more `Constraint`s.
use vstd::prelude::*;
use crate::contract::Contract;
use crate::compat::{opt_f64_eq, opt_f64_equal};
use crate::errors::ErrorCode;
use vstd::std_specs::cmp::PartialEqSpecImpl;
use crate::text::{debug_str, push_str, str_debug, str_eq};

verus! {

/// The type system: primitive types plus composite list and map types.
#[derive(Debug, Eq, Hash)]
pub enum Type {
    Bool,
    Integer,
    Float,
    String,
    Bytes,
    Timestamp,
    List(Box<Type>),
    Mapping(Box<Type>, Box<Type>),
}

impl PartialEq for Type {
    fn eq(&self, other: &Type) -> (r: bool)
        decreases self,
    {
        match (self, other) {
            (Type::Bool, Type::Bool) => true,
            (Type::Integer, Type::Integer) => true,
            (Type::Float, Type::Float) => true,
            (Type::String, Type::String) => true,
            (Type::Bytes, Type::Bytes) => true,
            (Type::Timestamp, Type::Timestamp) => true,
            (Type::List(a), Type::List(b)) => (**a).eq(&**b),
            (Type::Mapping(ak, av), Type::Mapping(bk, bv)) => (**ak).eq(&**bk) && (**av).eq(&**bv),
            _ => false,
        }
    }
}

impl vstd::std_specs::cmp::PartialEqSpecImpl for Type {
    open spec fn obeys_eq_spec() -> bool {
        true
    }

    open spec fn eq_spec(&self, other: &Type) -> bool {
        *self == *other
    }
}

impl Clone for Type {
    fn clone(&self) -> (r: Self)
        ensures
            r == *self,
        decreases self,
    {
        match self {
            Type::Bool => Type::Bool,
            Type::Integer => Type::Integer,
            Type::Float => Type::Float,
            Type::String => Type::String,
            Type::Bytes => Type::Bytes,
            Type::Timestamp => Type::Timestamp,
            Type::List(e) => Type::List(Box::new((**e).clone())),
            Type::Mapping(k, v) => Type::Mapping(Box::new((**k).clone()), Box::new((**v).clone())),
        }
    }
}

/// The text of a type, e.g. `map<string, integer>`.
pub open spec fn type_text(t: Type) -> Seq<char>
    decreases t,
{
    match t {
        Type::Bool => "bool"@,
        Type::Integer => "integer"@,
        Type::Float => "float"@,
        Type::String => "string"@,
        Type::Bytes => "bytes"@,
        Type::Timestamp => "timestamp"@,
        Type::List(e) => "list<"@ + type_text(*e) + ">"@,
        Type::Mapping(k, v) => "map<"@ + type_text(*k) + ", "@ + type_text(*v) + ">"@,
    }
}

impl Type {
    pub fn list(element: Type) -> (r: Type)
        ensures
            r == Type::List(Box::new(element)),
    {
        Type::List(Box::new(element))
    }

    pub fn map(key: Type, value: Type) -> (r: Type)
        ensures
            r == Type::Mapping(Box::new(key), Box::new(value)),
    {
        Type::Mapping(Box::new(key), Box::new(value))
    }

    pub fn is_composite(&self) -> (r: bool)
        ensures
            r == (*self is List || *self is Mapping),
    {
        match self {
            Type::List(_) | Type::Mapping(_, _) => true,
            _ => false,
        }
    }

    pub fn is_primitive(&self) -> (r: bool)
        ensures
            r == !(*self is List || *self is Mapping),
    {
        !self.is_composite()
    }

    /// The text of the type, as it is shown to users.
    pub fn to_string(&self) -> (r: String)
        ensures
            r@ == type_text(*self),
    {
        let mut s = String::new();
        self.write_to(&mut s);
        s
    }

    fn write_to(&self, s: &mut String)
        ensures
            final(s)@ == old(s)@ + type_text(*self),
        decreases self,
    {
        match self {
            Type::Bool => push_str(s, "bool"),
            Type::Integer => push_str(s, "integer"),
            Type::Float => push_str(s, "float"),
            Type::String => push_str(s, "string"),
            Type::Bytes => push_str(s, "bytes"),
            Type::Timestamp => push_str(s, "timestamp"),
            Type::List(e) => {
                push_str(s, "list<");
                e.write_to(s);
                push_str(s, ">");
            },
            Type::Mapping(k, v) => {
                push_str(s, "map<");
                k.write_to(s);
                push_str(s, ", ");
                v.write_to(s);
                push_str(s, ">");
            },
        }
        proof {
            assert(final(s)@ =~= old(s)@ + type_text(*self));
        }
    }
}

/// A constraint evaluated against a field's value during validation.
///
/// `Range` bounds are IEEE-754 binary64 bit patterns. `Custom` is an
/// inspectable escape hatch that validation records but never evaluates.
#[derive(Debug)]
pub enum Constraint {
    Range { min: Option<u64>, max: Option<u64> },
    Length { min: Option<u64>, max: Option<u64> },
    Pattern { grammar: String },
    NonEmpty,
    Custom { name: String, description: String },
}

/// The mathematical value of a `Constraint`.
pub enum ConstraintView {
    Range { min: Option<u64>, max: Option<u64> },
    Length { min: Option<u64>, max: Option<u64> },
    Pattern { grammar: Seq<char> },
    NonEmpty,
    Custom { name: Seq<char>, description: Seq<char> },
}

impl View for Constraint {
    type V = ConstraintView;

    open spec fn view(&self) -> ConstraintView {
        match self {
            Constraint::Range { min, max } => ConstraintView::Range { min: *min, max: *max },
            Constraint::Length { min, max } => ConstraintView::Length { min: *min, max: *max },
            Constraint::Pattern { grammar } => ConstraintView::Pattern { grammar: grammar@ },
            Constraint::NonEmpty => ConstraintView::NonEmpty,
            Constraint::Custom { name, description } => ConstraintView::Custom {
                name: name@,
                description: description@,
            },
        }
    }
}

/// Whether two constraints are equal as `==` compares them: `Range`
/// bounds as optional doubles (IEEE `==`, so a NaN bound equals nothing),
/// everything else by its value.
pub open spec fn constraint_eq(a: ConstraintView, b: ConstraintView) -> bool {
    match (a, b) {
        (ConstraintView::Range { min: a1, max: a2 }, ConstraintView::Range { min: b1, max: b2 }) => opt_f64_eq(a1, b1)
            && opt_f64_eq(a2, b2),
        (ConstraintView::Length { min: a1, max: a2 }, ConstraintView::Length { min: b1, max: b2 }) => a1 == b1 && a2
            == b2,
        (ConstraintView::Pattern { grammar: g }, ConstraintView::Pattern { grammar: h }) => g == h,
        (ConstraintView::NonEmpty, ConstraintView::NonEmpty) => true,
        (
            ConstraintView::Custom { name: n1, description: d1 },
            ConstraintView::Custom { name: n2, description: d2 },
        ) => n1 == n2 && d1 == d2,
        _ => false,
    }
}

impl PartialEq for Constraint {
    fn eq(&self, other: &Constraint) -> (r: bool) {
        match (self, other) {
            (Constraint::Range { min: a1, max: a2 }, Constraint::Range { min: b1, max: b2 }) => opt_f64_equal(*a1, *b1)
                && opt_f64_equal(*a2, *b2),
            (Constraint::Length { min: a1, max: a2 }, Constraint::Length { min: b1, max: b2 }) => *a1 == *b1 && *a2
                == *b2,
            (Constraint::Pattern { grammar: g }, Constraint::Pattern { grammar: h }) => str_eq(g.as_str(), h.as_str()),
            (Constraint::NonEmpty, Constraint::NonEmpty) => true,
            (
                Constraint::Custom { name: n1, description: d1 },
                Constraint::Custom { name: n2, description: d2 },
            ) => str_eq(n1.as_str(), n2.as_str()) && str_eq(d1.as_str(), d2.as_str()),
            _ => false,
        }
    }
}

impl PartialEqSpecImpl for Constraint {
    open spec fn obeys_eq_spec() -> bool {
        true
    }

    open spec fn eq_spec(&self, other: &Constraint) -> bool {
        constraint_eq(self@, other@)
    }
}

impl Clone for Constraint {
    fn clone(&self) -> (r: Self)
        ensures
            r == *self,
    {
        match self {
            Constraint::Range { min, max } => Constraint::Range { min: *min, max: *max },
            Constraint::Length { min, max } => Constraint::Length { min: *min, max: *max },
            Constraint::Pattern { grammar } => Constraint::Pattern { grammar: grammar.clone() },
            Constraint::NonEmpty => Constraint::NonEmpty,
            Constraint::Custom { name, description } => Constraint::Custom {
                name: name.clone(),
                description: description.clone(),
            },
        }
    }
}

/// A single field within a `Schema`: its name, type, whether it is
/// required, the constraints its value must satisfy, and a description.
#[derive(Debug, PartialEq)]
pub struct Field {
    name: String,
    ty: Type,
    required: bool,
    constraints: Vec<Constraint>,
    description: Option<String>,
}

/// The mathematical value of a `Field`.
pub struct FieldView {
    pub name: Seq<char>,
    pub ty: Type,
    pub required: bool,
    pub constraints: Seq<ConstraintView>,
    pub description: Option<Seq<char>>,
}

pub open spec fn opt_str_view(o: Option<String>) -> Option<Seq<char>> {
    match o {
        Some(s) => Some(s@),
        None => None,
    }
}

impl View for Field {
    type V = FieldView;

    closed spec fn view(&self) -> FieldView {
        FieldView {
            name: self.name@,
            ty: self.ty,
            required: self.required,
            constraints: self.constraints@.map_values(|c: Constraint| c@),
            description: opt_str_view(self.description),
        }
    }
}

/// Copies a list of constraints.
fn clone_constraints(cs: &Vec<Constraint>) -> (r: Vec<Constraint>)
    ensures
        r@ == cs@,
{
    let mut v: Vec<Constraint> = Vec::new();
    let mut i: usize = 0;
    while i < cs.len()
        invariant
            i <= cs@.len(),
            v@ == cs@.take(i as int),
        decreases cs@.len() - i,
    {
        v.push(cs[i].clone());
        proof {
            assert(cs@.take(i as int + 1) =~= cs@.take(i as int).push(cs@[i as int]));
        }
        i = i + 1;
    }
    proof {
        assert(cs@.take(cs@.len() as int) =~= cs@);
    }
    v
}

impl Clone for Field {
    fn clone(&self) -> (r: Self)
        ensures
            r@ == self@,
    {
        let description = match &self.description {
            Some(d) => Some(d.clone()),
            None => None,
        };
        Field {
            name: self.name.clone(),
            ty: self.ty.clone(),
            required: self.required,
            constraints: clone_constraints(&self.constraints),
            description,
        }
    }
}

impl Field {
    /// A required field with no constraints and no description.
    pub fn new(name: &str, ty: Type) -> (r: Field)
        ensures
            r@ == (FieldView {
                name: name@,
                ty,
                required: true,
                constraints: Seq::empty(),
                description: None,
            }),
    {
        let r = Field {
            name: name.to_owned(),
            ty,
            required: true,
            constraints: Vec::new(),
            description: None,
        };
        proof {
            assert(r@.constraints =~= Seq::<ConstraintView>::empty());
        }
        r
    }

    pub fn required(self, required: bool) -> (r: Field)
        ensures
            r@ == (FieldView { required, ..self@ }),
    {
        let mut f = self;
        f.required = required;
        proof {
            assert(f@.constraints =~= self@.constraints);
        }
        f
    }

    pub fn constraint(self, constraint: Constraint) -> (r: Field)
        ensures
            r@ == (FieldView { constraints: self@.constraints.push(constraint@), ..self@ }),
    {
        let mut f = self;
        f.constraints.push(constraint);
        proof {
            assert(f@.constraints =~= self@.constraints.push(constraint@));
        }
        f
    }

    pub fn description(self, description: &str) -> (r: Field)
        ensures
            r@ == (FieldView { description: Some(description@), ..self@ }),
    {
        let mut f = self;
        f.description = Some(description.to_owned());
        proof {
            assert(f@.constraints =~= self@.constraints);
        }
        f
    }

    pub fn name(&self) -> (r: &str)
        ensures
            r@ == self@.name,
    {
        self.name.as_str()
    }

    pub fn ty(&self) -> (r: &Type)
        ensures
            *r == self@.ty,
    {
        &self.ty
    }

    pub fn is_required(&self) -> (r: bool)
        ensures
            r == self@.required,
    {
        self.required
    }

    pub fn constraints(&self) -> (r: &[Constraint])
        ensures
            r@.map_values(|c: Constraint| c@) == self@.constraints,
    {
        self.constraints.as_slice()
    }

    pub fn description_text(&self) -> (r: Option<&str>)
        ensures
            match r {
                Some(d) => self@.description == Some(d@),
                None => self@.description is None,
            },
    {
        match &self.description {
            Some(d) => Some(d.as_str()),
            None => None,
        }
    }
}

/// The values of a list of fields.
pub open spec fn fields_view(fs: Seq<Field>) -> Seq<FieldView> {
    fs.map_values(|f: Field| f@)
}

/// The names of a list of fields, in order.
pub open spec fn field_names(fs: Seq<FieldView>) -> Seq<Seq<char>> {
    fs.map_values(|f: FieldView| f.name)
}

/// Position `i` repeats a name that occurs earlier.
pub open spec fn repeats_earlier(names: Seq<Seq<char>>, i: int) -> bool {
    exists|j: int| 0 <= j < i && names[j] == names[i]
}

/// Position `i` is the first that repeats an earlier name.
pub open spec fn is_first_repeat(names: Seq<Seq<char>>, i: int) -> bool {
    &&& 0 <= i < names.len()
    &&& repeats_earlier(names, i)
    &&& forall|k: int| 0 <= k < i ==> !repeats_earlier(names, k)
}

/// No name occurs twice.
pub open spec fn names_distinct(names: Seq<Seq<char>>) -> bool {
    forall|i: int, j: int| 0 <= i < j < names.len() ==> names[i] != names[j]
}

/// The position of the first field named `name`.
pub open spec fn field_index(fs: Seq<FieldView>, name: Seq<char>) -> Option<int> {
    if exists|i: int| 0 <= i < fs.len() && #[trigger] fs[i].name == name {
        Some(
            choose|i: int|
                0 <= i < fs.len() && #[trigger] fs[i].name == name && forall|j: int|
                    0 <= j < i ==> fs[j].name != name,
        )
    } else {
        None
    }
}

/// The least position holding `name` is what `field_index` picks.
pub proof fn lemma_field_index(fs: Seq<FieldView>, name: Seq<char>, i: int)
    requires
        0 <= i < fs.len(),
        fs[i].name == name,
        forall|j: int| 0 <= j < i ==> fs[j].name != name,
    ensures
        field_index(fs, name) == Some(i),
{
    let k = choose|k: int|
        0 <= k < fs.len() && #[trigger] fs[k].name == name && forall|j: int| 0 <= j < k ==> fs[j].name != name;
    assert(0 <= k < fs.len() && fs[k].name == name && forall|j: int| 0 <= j < k ==> fs[j].name != name);
    if k < i {
        assert(fs[k].name != name);
    } else if k > i {
        assert(fs[i].name != name);
    }
}

/// What `field_index` finds is the first position holding `name`.
pub proof fn lemma_field_index_found(fs: Seq<FieldView>, name: Seq<char>)
    ensures
        match field_index(fs, name) {
            Some(i) => 0 <= i < fs.len() && fs[i].name == name && forall|j: int| 0 <= j < i ==> fs[j].name != name,
            None => forall|j: int| 0 <= j < fs.len() ==> fs[j].name != name,
        },
{
    if exists|i: int| 0 <= i < fs.len() && #[trigger] fs[i].name == name {
        let w = choose|i: int| 0 <= i < fs.len() && #[trigger] fs[i].name == name;
        lemma_least_name(fs, name, w);
    }
}

proof fn lemma_least_name(fs: Seq<FieldView>, name: Seq<char>, w: int)
    requires
        0 <= w < fs.len(),
        fs[w].name == name,
    ensures
        exists|i: int|
            0 <= i < fs.len() && #[trigger] fs[i].name == name && forall|j: int| 0 <= j < i ==> fs[j].name != name,
    decreases w,
{
    if exists|j: int| 0 <= j < w && fs[j].name == name {
        let j = choose|j: int| 0 <= j < w && fs[j].name == name;
        lemma_least_name(fs, name, j);
    } else {
        assert(forall|j: int| 0 <= j < w ==> fs[j].name != name);
    }
}

/// Finds the first field named `name`.
pub fn find_field<'a>(fields: &'a [Field], name: &str) -> (r: Option<&'a Field>)
    ensures
        match field_index(fields_view(fields@), name@) {
            Some(i) => r matches Some(f) && f@ == fields@[i]@,
            None => r is None,
        },
{
    let ghost fs = fields_view(fields@);
    let mut i: usize = 0;
    while i < fields.len()
        invariant
            i <= fields@.len(),
            fs == fields_view(fields@),
            forall|j: int| 0 <= j < i ==> fs[j].name != name@,
        decreases fields@.len() - i,
    {
        if str_eq(fields[i].name(), name) {
            proof {
                lemma_field_index(fs, name@, i as int);
            }
            return Some(&fields[i]);
        }
        i = i + 1;
    }
    proof {
        if exists|k: int| 0 <= k < fs.len() && #[trigger] fs[k].name == name@ {
            let k = choose|k: int| 0 <= k < fs.len() && #[trigger] fs[k].name == name@;
            assert(fs[k].name != name@);
        }
    }
    None
}

/// Failures constructing a schema.
#[derive(Debug, PartialEq, Eq)]
pub enum SchemaError {
    DuplicateField { contract: String, name: String },
    InvalidFieldName { name: String, reason: String },
    InvalidType { expr: String, reason: String },
}

impl ErrorCode for SchemaError {
    open spec fn code_spec(&self) -> Seq<char> {
        match self {
            SchemaError::DuplicateField { .. } => "schema.field.duplicate"@,
            SchemaError::InvalidFieldName { .. } => "schema.field.invalid-name"@,
            SchemaError::InvalidType { .. } => "schema.type.invalid"@,
        }
    }

    fn code(&self) -> (r: &'static str) {
        match self {
            SchemaError::DuplicateField { .. } => "schema.field.duplicate",
            SchemaError::InvalidFieldName { .. } => "schema.field.invalid-name",
            SchemaError::InvalidType { .. } => "schema.type.invalid",
        }
    }
}

impl SchemaError {
    /// The human-readable message of this error.
    pub open spec fn message_spec(&self) -> Seq<char> {
        match self {
            SchemaError::DuplicateField { contract, name } => "duplicate field "@ + str_debug(name@)
                + " in schema "@ + contract@,
            SchemaError::InvalidFieldName { name, reason } => "invalid field name "@ + str_debug(name@)
                + ": "@ + reason@,
            SchemaError::InvalidType { expr, reason } => "invalid type expression "@ + str_debug(expr@)
                + ": "@ + reason@,
        }
    }

    /// The human-readable message of this error.
    pub fn message(&self) -> (r: String)
        ensures
            r@ == self.message_spec(),
    {
        let mut r = String::new();
        match self {
            SchemaError::DuplicateField { contract, name } => {
                push_str(&mut r, "duplicate field ");
                let d = debug_str(name.as_str());
                push_str(&mut r, d.as_str());
                push_str(&mut r, " in schema ");
                push_str(&mut r, contract.as_str());
            },
            SchemaError::InvalidFieldName { name, reason } => {
                push_str(&mut r, "invalid field name ");
                let d = debug_str(name.as_str());
                push_str(&mut r, d.as_str());
                push_str(&mut r, ": ");
                push_str(&mut r, reason.as_str());
            },
            SchemaError::InvalidType { expr, reason } => {
                push_str(&mut r, "invalid type expression ");
                let d = debug_str(expr.as_str());
                push_str(&mut r, d.as_str());
                push_str(&mut r, ": ");
                push_str(&mut r, reason.as_str());
            },
        }
        proof {
            assert(r@ =~= self.message_spec());
        }
        r
    }
}

/// A versioned, ordered collection of `Field`s, identified by a
/// `Contract`. Field names are distinct; declaration order is kept.
#[derive(Debug, PartialEq)]
pub struct Schema {
    contract: Contract,
    fields: Vec<Field>,
}

impl Schema {
    pub closed spec fn contract_spec(&self) -> Contract {
        self.contract
    }

    pub closed spec fn fields_spec(&self) -> Seq<FieldView> {
        fields_view(self.fields@)
    }

    /// Field names are distinct.
    pub open spec fn wf(&self) -> bool {
        names_distinct(field_names(self.fields_spec()))
    }

    /// Constructs a schema, rejecting a field name that repeats an earlier
    /// one; the error names the first such field.
    pub fn new(contract: Contract, fields: Vec<Field>) -> (r: Result<Schema, SchemaError>)
        ensures
            match r {
                Ok(s) => {
                    &&& s.wf()
                    &&& s.contract_spec() == contract
                    &&& s.fields_spec() == fields_view(fields@)
                },
                Err(e) => exists|i: int|
                    #[trigger] is_first_repeat(field_names(fields_view(fields@)), i)
                        && (e matches SchemaError::DuplicateField { contract: c, name }
                        && c@ == contract.text() && name@ == fields@[i]@.name),
            },
            r is Ok <==> names_distinct(field_names(fields_view(fields@))),
    {
        let ghost names = field_names(fields_view(fields@));
        let mut i: usize = 0;
        while i < fields.len()
            invariant
                i <= fields@.len(),
                names == field_names(fields_view(fields@)),
                names.len() == fields@.len(),
                forall|k: int| 0 <= k < i ==> !repeats_earlier(names, k),
            decreases fields@.len() - i,
        {
            let mut j: usize = 0;
            while j < i
                invariant
                    j <= i < fields@.len(),
                    names == field_names(fields_view(fields@)),
                    names.len() == fields@.len(),
                    forall|l: int| 0 <= l < j ==> names[l] != names[i as int],
                    forall|k: int| 0 <= k < i ==> !repeats_earlier(names, k),
                decreases i - j,
            {
                if str_eq(fields[j].name(), fields[i].name()) {
                    let name = fields[i].name().to_owned();
                    proof {
                        assert(names[j as int] == names[i as int]);
                        assert(repeats_earlier(names, i as int));
                        assert(is_first_repeat(names, i as int));
                    }
                    return Err(SchemaError::DuplicateField { contract: contract.to_string(), name });
                }
                j = j + 1;
            }
            proof {
                assert(!repeats_earlier(names, i as int));
            }
            i = i + 1;
        }
        proof {
            assert forall|a: int, b: int| 0 <= a < b < names.len() implies names[a] != names[b] by {
                assert(!repeats_earlier(names, b));
            }
        }
        Ok(Schema { contract, fields })
    }

    pub fn contract(&self) -> (r: &Contract)
        ensures
            *r == self.contract_spec(),
    {
        &self.contract
    }

    pub fn fields(&self) -> (r: &[Field])
        ensures
            fields_view(r@) == self.fields_spec(),
    {
        self.fields.as_slice()
    }

    /// The field named `name`, if there is one.
    pub fn field(&self, name: &str) -> (r: Option<&Field>)
        ensures
            match field_index(self.fields_spec(), name@) {
                Some(i) => r matches Some(f) && f@ == self.fields_spec()[i],
                None => r is None,
            },
    {
        let fs = self.fields.as_slice();
        let r = find_field(fs, name);
        proof {
            assert(fs@ == self.fields@);
            lemma_field_index_found(self.fields_spec(), name@);
            match field_index(self.fields_spec(), name@) {
                Some(i) => {
                    assert(self.fields_spec()[i] == self.fields@[i]@);
                },
                None => {},
            }
        }
        r
    }
}

} // verus!
