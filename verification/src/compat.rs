//! Schema diff and compatibility analysis between two schema versions.
//!
//! `diff` is purely structural: it lists what changed. `analyze` adds
//! judgment on top, classifying each change and aggregating a level.
use vstd::prelude::*;
use crate::canonical::{seq_lt, str_lt};
use crate::float_bits::{
    eq, f64_bits_of_int, f64_eq, f64_is_nan, f64_key, f64_lt, f64_max, f64_min, is_nan, lemma_p2_values, lemma_small_int_bits,
    lemma_small_int_bits_monotone, lt, max, min, u64_to_f64_bits,
};
use crate::path::{path_text, Path, PathSegment, SegView};
use crate::schema::{
    field_index, field_names, lemma_field_index, lemma_field_index_found, names_distinct, type_text, Constraint, ConstraintView, Field, FieldView, Schema, Type,
    fields_view,
};
use crate::text::{debug_str, decimal, decimal_string, push_str, str_debug, str_eq};
use crate::validate::{rendered, render_bits, renders_floats};

verus! {

/// The kind of a single structural difference between two schemas.
#[derive(Debug, Clone, Copy, PartialEq, Eq, Structural)]
pub enum DiffKind {
    FieldAdded,
    FieldRemoved,
    TypeChanged,
    RequiredChanged,
    ConstraintAdded,
    ConstraintRemoved,
    ConstraintChanged,
    DescriptionChanged,
}

/// One structural difference, located by `path` (e.g. `.score` for a
/// whole-field change, `.score.maximum` for a changed upper bound). For a
/// changed bound, `bounds` holds the two compared bounds as double bits,
/// an absent bound being the matching infinity.
#[derive(Debug, PartialEq)]
pub struct DiffEntry {
    pub path: Path,
    pub kind: DiffKind,
    pub before: Option<String>,
    pub after: Option<String>,
    bounds: Option<(u64, u64)>,
}

/// The mathematical value of a `DiffEntry`.
pub struct DiffView {
    pub path: Seq<SegView>,
    pub kind: DiffKind,
    pub before: Option<Seq<char>>,
    pub after: Option<Seq<char>>,
    pub bounds: Option<(u64, u64)>,
}

pub open spec fn opt_text(o: Option<String>) -> Option<Seq<char>> {
    match o {
        Some(s) => Some(s@),
        None => None,
    }
}

impl View for DiffEntry {
    type V = DiffView;

    closed spec fn view(&self) -> DiffView {
        DiffView {
            path: self.path@,
            kind: self.kind,
            before: opt_text(self.before),
            after: opt_text(self.after),
            bounds: self.bounds,
        }
    }
}

impl DiffEntry {
    /// An entry with the given location, kind and texts; for a changed
    /// bound, `bounds` holds the two compared bounds as double bits (an
    /// absent bound as the matching infinity), which classification reads.
    pub fn new(
        path: Path,
        kind: DiffKind,
        before: Option<String>,
        after: Option<String>,
        bounds: Option<(u64, u64)>,
    ) -> (r: DiffEntry)
        ensures
            r@ == entry(path@, kind, opt_text(before), opt_text(after), bounds),
    {
        DiffEntry { path, kind, before, after, bounds }
    }
}

fn clone_text(o: &Option<String>) -> (r: Option<String>)
    ensures
        opt_text(r) == opt_text(*o),
{
    match o {
        Some(s) => Some(s.clone()),
        None => None,
    }
}

impl Clone for DiffEntry {
    fn clone(&self) -> (r: Self)
        ensures
            r@ == self@,
    {
        DiffEntry {
            path: self.path.clone(),
            kind: self.kind,
            before: clone_text(&self.before),
            after: clone_text(&self.after),
            bounds: self.bounds,
        }
    }
}

pub open spec fn entry(
    path: Seq<SegView>,
    kind: DiffKind,
    before: Option<Seq<char>>,
    after: Option<Seq<char>>,
    bounds: Option<(u64, u64)>,
) -> DiffView {
    DiffView { path, kind, before, after, bounds }
}

pub open spec fn diff_views(v: Seq<DiffEntry>) -> Seq<DiffView> {
    v.map_values(|e: DiffEntry| e@)
}

/// The full set of structural differences between two schemas, in a
/// stable order: declared field order of the newer schema, then fields
/// present only in the older one.
#[derive(Debug, PartialEq)]
pub struct SchemaDiff {
    entries: Vec<DiffEntry>,
}

impl View for SchemaDiff {
    type V = Seq<DiffView>;

    closed spec fn view(&self) -> Seq<DiffView> {
        diff_views(self.entries@)
    }
}

impl SchemaDiff {
    pub fn entries(&self) -> (r: &[DiffEntry])
        ensures
            diff_views(r@) == self@,
    {
        self.entries.as_slice()
    }

    pub fn is_identical(&self) -> (r: bool)
        ensures
            r == (self@.len() == 0),
    {
        self.entries.len() == 0
    }
}

/// Types are equal for compatibility even when a map's key type differs,
/// at any depth: validation never inspects a map's key type.
pub open spec fn types_equal_ignoring_map_keys(a: Type, b: Type) -> bool
    decreases a,
{
    match (a, b) {
        (Type::Mapping(_, av), Type::Mapping(_, bv)) => types_equal_ignoring_map_keys(*av, *bv),
        (Type::List(ae), Type::List(be)) => types_equal_ignoring_map_keys(*ae, *be),
        _ => a == b,
    }
}

fn types_equal(a: &Type, b: &Type) -> (r: bool)
    ensures
        r == types_equal_ignoring_map_keys(*a, *b),
    decreases a,
{
    match (a, b) {
        (Type::Mapping(_, av), Type::Mapping(_, bv)) => types_equal(av, bv),
        (Type::List(ae), Type::List(be)) => types_equal(ae, be),
        _ => a.eq(b),
    }
}

/// A new double bound folded into a running one with `f64::max`.
pub open spec fn fold_max(e: Option<u64>, m: Option<u64>) -> Option<u64> {
    match m {
        Some(x) => Some(
            match e {
                Some(c) => f64_max(c, x),
                None => x,
            },
        ),
        None => e,
    }
}

/// A new double bound folded into a running one with `f64::min`.
pub open spec fn fold_min(e: Option<u64>, m: Option<u64>) -> Option<u64> {
    match m {
        Some(x) => Some(
            match e {
                Some(c) => f64_min(c, x),
                None => x,
            },
        ),
        None => e,
    }
}

/// The effective envelope of every `Range` constraint: the largest minimum
/// and the smallest maximum present, or `None` without any `Range`.
pub open spec fn effective_range(cs: Seq<ConstraintView>) -> Option<(Option<u64>, Option<u64>)>
    decreases cs.len(),
{
    if cs.len() == 0 {
        None
    } else {
        let prev = effective_range(cs.drop_last());
        match cs.last() {
            ConstraintView::Range { min, max } => {
                let (emin, emax) = match prev {
                    Some(p) => p,
                    None => (None, None),
                };
                Some((fold_max(emin, min), fold_min(emax, max)))
            },
            _ => prev,
        }
    }
}

pub open spec fn fold_max_u(e: Option<u64>, m: Option<u64>) -> Option<u64> {
    match m {
        Some(x) => Some(
            match e {
                Some(c) => if c >= x {
                    c
                } else {
                    x
                },
                None => x,
            },
        ),
        None => e,
    }
}

pub open spec fn fold_min_u(e: Option<u64>, m: Option<u64>) -> Option<u64> {
    match m {
        Some(x) => Some(
            match e {
                Some(c) => if c <= x {
                    c
                } else {
                    x
                },
                None => x,
            },
        ),
        None => e,
    }
}

/// The effective envelope of every `Length` constraint.
pub open spec fn effective_length(cs: Seq<ConstraintView>) -> Option<(Option<u64>, Option<u64>)>
    decreases cs.len(),
{
    if cs.len() == 0 {
        None
    } else {
        let prev = effective_length(cs.drop_last());
        match cs.last() {
            ConstraintView::Length { min, max } => {
                let (emin, emax) = match prev {
                    Some(p) => p,
                    None => (None, None),
                };
                Some((fold_max_u(emin, min), fold_min_u(emax, max)))
            },
            _ => prev,
        }
    }
}

pub open spec fn constraint_views(cs: Seq<Constraint>) -> Seq<ConstraintView> {
    cs.map_values(|c: Constraint| c@)
}

fn effective_range_of(cs: &[Constraint]) -> (r: Option<(Option<u64>, Option<u64>)>)
    ensures
        r == effective_range(constraint_views(cs@)),
{
    let ghost cv = constraint_views(cs@);
    let mut found = false;
    let mut eff_min: Option<u64> = None;
    let mut eff_max: Option<u64> = None;
    let mut i: usize = 0;
    while i < cs.len()
        invariant
            i <= cs@.len(),
            cv == constraint_views(cs@),
            effective_range(cv.take(i as int)) == (if found {
                Some((eff_min, eff_max))
            } else {
                None
            }),
            !found ==> eff_min is None && eff_max is None,
        decreases cs@.len() - i,
    {
        proof {
            assert(cv.take(i as int + 1).drop_last() =~= cv.take(i as int));
            assert(cv.take(i as int + 1).last() == cs@[i as int]@);
        }
        if let Constraint::Range { min: mn, max: mx } = &cs[i] {
            found = true;
            if let Some(m) = mn {
                eff_min = Some(
                    match eff_min {
                        Some(c) => max(c, *m),
                        None => *m,
                    },
                );
            }
            if let Some(m) = mx {
                eff_max = Some(
                    match eff_max {
                        Some(c) => min(c, *m),
                        None => *m,
                    },
                );
            }
        }
        i = i + 1;
    }
    proof {
        assert(cv.take(cs@.len() as int) =~= cv);
    }
    if found {
        Some((eff_min, eff_max))
    } else {
        None
    }
}

fn effective_length_of(cs: &[Constraint]) -> (r: Option<(Option<u64>, Option<u64>)>)
    ensures
        r == effective_length(constraint_views(cs@)),
{
    let ghost cv = constraint_views(cs@);
    let mut found = false;
    let mut eff_min: Option<u64> = None;
    let mut eff_max: Option<u64> = None;
    let mut i: usize = 0;
    while i < cs.len()
        invariant
            i <= cs@.len(),
            cv == constraint_views(cs@),
            effective_length(cv.take(i as int)) == (if found {
                Some((eff_min, eff_max))
            } else {
                None
            }),
            !found ==> eff_min is None && eff_max is None,
        decreases cs@.len() - i,
    {
        proof {
            assert(cv.take(i as int + 1).drop_last() =~= cv.take(i as int));
            assert(cv.take(i as int + 1).last() == cs@[i as int]@);
        }
        if let Constraint::Length { min: mn, max: mx } = &cs[i] {
            found = true;
            if let Some(m) = mn {
                eff_min = Some(
                    match eff_min {
                        Some(c) => if c >= *m {
                            c
                        } else {
                            *m
                        },
                        None => *m,
                    },
                );
            }
            if let Some(m) = mx {
                eff_max = Some(
                    match eff_max {
                        Some(c) => if c <= *m {
                            c
                        } else {
                            *m
                        },
                        None => *m,
                    },
                );
            }
        }
        i = i + 1;
    }
    proof {
        assert(cv.take(cs@.len() as int) =~= cv);
    }
    if found {
        Some((eff_min, eff_max))
    } else {
        None
    }
}

/// Any `NonEmpty` constraint is present.
pub open spec fn has_non_empty(cs: Seq<ConstraintView>) -> bool {
    exists|i: int| 0 <= i < cs.len() && #[trigger] cs[i] is NonEmpty
}

fn has_non_empty_of(cs: &[Constraint]) -> (r: bool)
    ensures
        r == has_non_empty(constraint_views(cs@)),
{
    let ghost cv = constraint_views(cs@);
    let mut i: usize = 0;
    while i < cs.len()
        invariant
            i <= cs@.len(),
            cv == constraint_views(cs@),
            forall|j: int| 0 <= j < i ==> !(#[trigger] cv[j] is NonEmpty),
        decreases cs@.len() - i,
    {
        if let Constraint::NonEmpty = &cs[i] {
            proof {
                assert(cv[i as int] is NonEmpty);
            }
            return true;
        }
        proof {
            assert(cv[i as int] == cs@[i as int]@);
        }
        i = i + 1;
    }
    false
}

/// `x` added to a sorted list of distinct strings, at its sorted place.
pub open spec fn set_insert(s: Seq<Seq<char>>, x: Seq<char>) -> Seq<Seq<char>>
    decreases s.len(),
{
    if s.len() == 0 {
        seq![x]
    } else if s[0] == x {
        s
    } else if seq_lt(x, s[0]) {
        seq![x] + s
    } else {
        seq![s[0]] + set_insert(s.drop_first(), x)
    }
}

/// The distinct `Pattern` grammars, in sorted order.
pub open spec fn pattern_grammars(cs: Seq<ConstraintView>) -> Seq<Seq<char>>
    decreases cs.len(),
{
    if cs.len() == 0 {
        Seq::empty()
    } else {
        let prev = pattern_grammars(cs.drop_last());
        match cs.last() {
            ConstraintView::Pattern { grammar } => set_insert(prev, grammar),
            _ => prev,
        }
    }
}

/// `(a1, a2)` sorts strictly before `(b1, b2)`.
pub open spec fn pair_lt(a: (Seq<char>, Seq<char>), b: (Seq<char>, Seq<char>)) -> bool {
    seq_lt(a.0, b.0) || (a.0 == b.0 && seq_lt(a.1, b.1))
}

pub open spec fn pair_set_insert(s: Seq<(Seq<char>, Seq<char>)>, x: (Seq<char>, Seq<char>)) -> Seq<
    (Seq<char>, Seq<char>),
>
    decreases s.len(),
{
    if s.len() == 0 {
        seq![x]
    } else if s[0] == x {
        s
    } else if pair_lt(x, s[0]) {
        seq![x] + s
    } else {
        seq![s[0]] + pair_set_insert(s.drop_first(), x)
    }
}

/// The distinct `Custom` constraints as `(name, description)`, sorted.
pub open spec fn custom_constraints(cs: Seq<ConstraintView>) -> Seq<(Seq<char>, Seq<char>)>
    decreases cs.len(),
{
    if cs.len() == 0 {
        Seq::empty()
    } else {
        let prev = custom_constraints(cs.drop_last());
        match cs.last() {
            ConstraintView::Custom { name, description } => pair_set_insert(prev, (name, description)),
            _ => prev,
        }
    }
}

pub open spec fn text_views(v: Seq<String>) -> Seq<Seq<char>> {
    v.map_values(|s: String| s@)
}

pub open spec fn pair_views(v: Seq<(String, String)>) -> Seq<(Seq<char>, Seq<char>)> {
    v.map_values(|p: (String, String)| (p.0@, p.1@))
}

/// The position at which `set_insert` places or finds `x`.
proof fn lemma_set_insert_at(s: Seq<Seq<char>>, x: Seq<char>, p: int)
    requires
        0 <= p <= s.len(),
        forall|j: int| 0 <= j < p ==> s[j] != x && !seq_lt(x, #[trigger] s[j]),
        p == s.len() || s[p] == x || seq_lt(x, s[p]),
    ensures
        set_insert(s, x) == (if p < s.len() && s[p] == x {
            s
        } else {
            s.insert(p, x)
        }),
    decreases s.len(),
{
    if s.len() == 0 {
        assert(s.insert(p, x) =~= seq![x]);
    } else if p == 0 {
        if s[0] != x {
            assert(s.insert(p, x) =~= seq![x] + s);
        }
    } else {
        let t = s.drop_first();
        assert forall|j: int| 0 <= j < p - 1 implies t[j] != x && !seq_lt(x, #[trigger] t[j]) by {
            assert(t[j] == s[j + 1]);
        }
        if p < s.len() {
            assert(t[p - 1] == s[p]);
        }
        lemma_set_insert_at(t, x, p - 1);
        if p < s.len() && s[p] == x {
            assert(seq![s[0]] + t =~= s);
        } else {
            assert(s.insert(p, x) =~= seq![s[0]] + t.insert(p - 1, x));
        }
    }
}

fn insert_text(v: &mut Vec<String>, x: &String)
    ensures
        text_views(final(v)@) == set_insert(text_views(old(v)@), x@),
{
    let ghost sv = text_views(v@);
    let mut p: usize = 0;
    while p < v.len() && !str_eq(v[p].as_str(), x.as_str()) && !str_lt(x.as_str(), v[p].as_str())
        invariant
            p <= v@.len(),
            sv == text_views(v@),
            forall|j: int| 0 <= j < p ==> sv[j] != x@ && !seq_lt(x@, #[trigger] sv[j]),
        decreases v@.len() - p,
    {
        p = p + 1;
    }
    proof {
        lemma_set_insert_at(sv, x@, p as int);
    }
    if p < v.len() && str_eq(v[p].as_str(), x.as_str()) {
        return;
    }
    v.insert(p, x.clone());
    proof {
        assert(text_views(v@) =~= sv.insert(p as int, x@));
    }
}

proof fn lemma_pair_set_insert_at(s: Seq<(Seq<char>, Seq<char>)>, x: (Seq<char>, Seq<char>), p: int)
    requires
        0 <= p <= s.len(),
        forall|j: int| 0 <= j < p ==> s[j] != x && !pair_lt(x, #[trigger] s[j]),
        p == s.len() || s[p] == x || pair_lt(x, s[p]),
    ensures
        pair_set_insert(s, x) == (if p < s.len() && s[p] == x {
            s
        } else {
            s.insert(p, x)
        }),
    decreases s.len(),
{
    if s.len() == 0 {
        assert(s.insert(p, x) =~= seq![x]);
    } else if p == 0 {
        if s[0] != x {
            assert(s.insert(p, x) =~= seq![x] + s);
        }
    } else {
        let t = s.drop_first();
        assert forall|j: int| 0 <= j < p - 1 implies t[j] != x && !pair_lt(x, #[trigger] t[j]) by {
            assert(t[j] == s[j + 1]);
        }
        if p < s.len() {
            assert(t[p - 1] == s[p]);
        }
        lemma_pair_set_insert_at(t, x, p - 1);
        if p < s.len() && s[p] == x {
            assert(seq![s[0]] + t =~= s);
        } else {
            assert(s.insert(p, x) =~= seq![s[0]] + t.insert(p - 1, x));
        }
    }
}

fn pair_less(a: &(String, String), b: &(String, String)) -> (r: bool)
    ensures
        r == pair_lt((a.0@, a.1@), (b.0@, b.1@)),
{
    str_lt(a.0.as_str(), b.0.as_str()) || (str_eq(a.0.as_str(), b.0.as_str()) && str_lt(a.1.as_str(), b.1.as_str()))
}

fn pair_equal(a: &(String, String), b: &(String, String)) -> (r: bool)
    ensures
        r == ((a.0@, a.1@) == (b.0@, b.1@)),
{
    str_eq(a.0.as_str(), b.0.as_str()) && str_eq(a.1.as_str(), b.1.as_str())
}

fn insert_pair(v: &mut Vec<(String, String)>, x: (String, String))
    ensures
        pair_views(final(v)@) == pair_set_insert(pair_views(old(v)@), (x.0@, x.1@)),
{
    let ghost sv = pair_views(v@);
    let ghost xv = (x.0@, x.1@);
    let mut p: usize = 0;
    while p < v.len() && !pair_equal(&v[p], &x) && !pair_less(&x, &v[p])
        invariant
            p <= v@.len(),
            sv == pair_views(v@),
            xv == (x.0@, x.1@),
            forall|j: int| 0 <= j < p ==> sv[j] != xv && !pair_lt(xv, #[trigger] sv[j]),
        decreases v@.len() - p,
    {
        p = p + 1;
    }
    proof {
        lemma_pair_set_insert_at(sv, xv, p as int);
    }
    if p < v.len() && pair_equal(&v[p], &x) {
        return;
    }
    v.insert(p, x);
    proof {
        assert(pair_views(v@) =~= sv.insert(p as int, xv));
    }
}

fn pattern_grammars_of(cs: &[Constraint]) -> (r: Vec<String>)
    ensures
        text_views(r@) == pattern_grammars(constraint_views(cs@)),
{
    let ghost cv = constraint_views(cs@);
    let mut out: Vec<String> = Vec::new();
    let mut i: usize = 0;
    proof {
        assert(text_views(out@) =~= Seq::<Seq<char>>::empty());
    }
    while i < cs.len()
        invariant
            i <= cs@.len(),
            cv == constraint_views(cs@),
            text_views(out@) == pattern_grammars(cv.take(i as int)),
        decreases cs@.len() - i,
    {
        proof {
            assert(cv.take(i as int + 1).drop_last() =~= cv.take(i as int));
            assert(cv.take(i as int + 1).last() == cs@[i as int]@);
        }
        if let Constraint::Pattern { grammar } = &cs[i] {
            insert_text(&mut out, grammar);
        }
        i = i + 1;
    }
    proof {
        assert(cv.take(cs@.len() as int) =~= cv);
    }
    out
}

fn custom_constraints_of(cs: &[Constraint]) -> (r: Vec<(String, String)>)
    ensures
        pair_views(r@) == custom_constraints(constraint_views(cs@)),
{
    let ghost cv = constraint_views(cs@);
    let mut out: Vec<(String, String)> = Vec::new();
    let mut i: usize = 0;
    proof {
        assert(pair_views(out@) =~= Seq::<(Seq<char>, Seq<char>)>::empty());
    }
    while i < cs.len()
        invariant
            i <= cs@.len(),
            cv == constraint_views(cs@),
            pair_views(out@) == custom_constraints(cv.take(i as int)),
        decreases cs@.len() - i,
    {
        proof {
            assert(cv.take(i as int + 1).drop_last() =~= cv.take(i as int));
            assert(cv.take(i as int + 1).last() == cs@[i as int]@);
        }
        if let Constraint::Custom { name, description } = &cs[i] {
            insert_pair(&mut out, (name.clone(), description.clone()));
        }
        i = i + 1;
    }
    proof {
        assert(cv.take(cs@.len() as int) =~= cv);
    }
    out
}

/// The negative and positive infinities, by their bits.
pub open spec fn neg_inf_bits() -> u64 {
    0xfff0_0000_0000_0000
}

pub open spec fn pos_inf_bits() -> u64 {
    0x7ff0_0000_0000_0000
}

/// A double bound's text: the rendered value, or `none`.
pub open spec fn opt_float_text(v: Option<u64>, rf: spec_fn(u64) -> Seq<char>) -> Seq<char> {
    match v {
        Some(x) => rf(x),
        None => "none"@,
    }
}

/// A length bound's text: its decimal digits, or `none`.
pub open spec fn opt_length_text(v: Option<u64>) -> Seq<char> {
    match v {
        Some(x) => decimal(x as nat),
        None => "none"@,
    }
}

/// `head{min: lo, max: hi}`.
pub open spec fn envelope_text(head: Seq<char>, lo: Seq<char>, hi: Seq<char>) -> Seq<char> {
    head + "{min: "@ + lo + ", max: "@ + hi + "}"@
}

/// Two optional doubles are equal as `Option<f64>` compares them.
pub open spec fn opt_f64_eq(a: Option<u64>, b: Option<u64>) -> bool {
    match (a, b) {
        (Some(x), Some(y)) => f64_eq(x, y),
        (None, None) => true,
        _ => false,
    }
}

/// A range bound is unchanged: both absent, or the same double, equal as
/// doubles or both NaN (so every bound is unchanged from itself).
pub open spec fn bound_unchanged(a: Option<u64>, b: Option<u64>) -> bool {
    match (a, b) {
        (Some(x), Some(y)) => f64_eq(x, y) || (f64_is_nan(x) && f64_is_nan(y)),
        (None, None) => true,
        _ => false,
    }
}

/// A field's summary: its type and whether it is required.
pub open spec fn field_text(f: FieldView) -> Seq<char> {
    type_text(f.ty) + " ("@ + (if f.required {
        "required"@
    } else {
        "optional"@
    }) + ")"@
}

pub open spec fn bool_text(b: bool) -> Seq<char> {
    if b {
        "true"@
    } else {
        "false"@
    }
}

pub open spec fn minimum_path(path: Seq<SegView>) -> Seq<SegView> {
    path.push(SegView::Field("minimum"@))
}

pub open spec fn maximum_path(path: Seq<SegView>) -> Seq<SegView> {
    path.push(SegView::Field("maximum"@))
}

#[verifier::opaque]
pub open spec fn range_part(
    b: Seq<ConstraintView>,
    a: Seq<ConstraintView>,
    path: Seq<SegView>,
    rf: spec_fn(u64) -> Seq<char>,
) -> Seq<DiffView> {
    match (effective_range(b), effective_range(a)) {
        (None, None) => Seq::empty(),
        (None, Some((mn, mx))) => seq![entry(path, DiffKind::ConstraintAdded, None, Some(envelope_text("Range"@, opt_float_text(mn, rf), opt_float_text(mx, rf))), None)],
        (Some((mn, mx)), None) => seq![entry(path, DiffKind::ConstraintRemoved, Some(envelope_text("Range"@, opt_float_text(mn, rf), opt_float_text(mx, rf))), None, None)],
        (Some((bmin, bmax)), Some((amin, amax))) => (if !bound_unchanged(bmin, amin) {
            seq![entry(minimum_path(path), DiffKind::ConstraintChanged, Some(opt_float_text(bmin, rf)), Some(opt_float_text(amin, rf)), Some((float_bound_bits(bmin, neg_inf_bits()), float_bound_bits(amin, neg_inf_bits()))))]
        } else {
            Seq::empty()
        }) + (if !bound_unchanged(bmax, amax) {
            seq![entry(maximum_path(path), DiffKind::ConstraintChanged, Some(opt_float_text(bmax, rf)), Some(opt_float_text(amax, rf)), Some((float_bound_bits(bmax, pos_inf_bits()), float_bound_bits(amax, pos_inf_bits()))))]
        } else {
            Seq::empty()
        }),
    }
}

/// A double bound's bits, or the given infinity when absent.
pub open spec fn float_bound_bits(v: Option<u64>, inf: u64) -> u64 {
    match v {
        Some(x) => x,
        None => inf,
    }
}

/// A length bound as the nearest double's bits, or the given infinity.
pub open spec fn length_bound_bits(v: Option<u64>, inf: u64) -> u64 {
    match v {
        Some(x) => f64_bits_of_int(x as int),
        None => inf,
    }
}

#[verifier::opaque]
pub open spec fn length_part(b: Seq<ConstraintView>, a: Seq<ConstraintView>, path: Seq<SegView>) -> Seq<DiffView> {
    match (effective_length(b), effective_length(a)) {
        (None, None) => Seq::empty(),
        (None, Some((mn, mx))) => seq![entry(path, DiffKind::ConstraintAdded, None, Some(envelope_text("Length"@, opt_length_text(mn), opt_length_text(mx))), None)],
        (Some((mn, mx)), None) => seq![entry(path, DiffKind::ConstraintRemoved, Some(envelope_text("Length"@, opt_length_text(mn), opt_length_text(mx))), None, None)],
        (Some((bmin, bmax)), Some((amin, amax))) => (if bmin != amin {
            seq![entry(minimum_path(path), DiffKind::ConstraintChanged, Some(opt_length_text(bmin)), Some(opt_length_text(amin)), Some((length_bound_bits(bmin, neg_inf_bits()), length_bound_bits(amin, neg_inf_bits()))))]
        } else {
            Seq::empty()
        }) + (if bmax != amax {
            seq![entry(maximum_path(path), DiffKind::ConstraintChanged, Some(opt_length_text(bmax)), Some(opt_length_text(amax)), Some((length_bound_bits(bmax, pos_inf_bits()), length_bound_bits(amax, pos_inf_bits()))))]
        } else {
            Seq::empty()
        }),
    }
}

#[verifier::opaque]
pub open spec fn non_empty_part(b: Seq<ConstraintView>, a: Seq<ConstraintView>, path: Seq<SegView>) -> Seq<DiffView> {
    if !has_non_empty(b) && has_non_empty(a) {
        seq![entry(path, DiffKind::ConstraintAdded, None, Some("NonEmpty"@), None)]
    } else if has_non_empty(b) && !has_non_empty(a) {
        seq![entry(path, DiffKind::ConstraintRemoved, Some("NonEmpty"@), None, None)]
    } else {
        Seq::empty()
    }
}

pub open spec fn pattern_text(g: Seq<char>) -> Seq<char> {
    "Pattern("@ + str_debug(g) + ")"@
}

pub open spec fn custom_text(c: (Seq<char>, Seq<char>)) -> Seq<char> {
    "Custom("@ + str_debug(c.0) + ", "@ + str_debug(c.1) + ")"@
}

/// The members of `a` missing from `b`, in `a`'s order.
pub open spec fn set_minus<T>(a: Seq<T>, b: Seq<T>) -> Seq<T> {
    a.filter(|x: T| !b.contains(x))
}

#[verifier::opaque]
pub open spec fn pattern_part(b: Seq<ConstraintView>, a: Seq<ConstraintView>, path: Seq<SegView>) -> Seq<DiffView> {
    let bs = pattern_grammars(b);
    let as_ = pattern_grammars(a);
    set_minus(as_, bs).map_values(
        |g: Seq<char>| entry(path, DiffKind::ConstraintAdded, None, Some(pattern_text(g)), None),
    ) + set_minus(bs, as_).map_values(
        |g: Seq<char>| entry(path, DiffKind::ConstraintRemoved, Some(pattern_text(g)), None, None),
    )
}

#[verifier::opaque]
pub open spec fn custom_part(b: Seq<ConstraintView>, a: Seq<ConstraintView>, path: Seq<SegView>) -> Seq<DiffView> {
    let bs = custom_constraints(b);
    let as_ = custom_constraints(a);
    set_minus(as_, bs).map_values(
        |c: (Seq<char>, Seq<char>)| entry(path, DiffKind::ConstraintAdded, None, Some(custom_text(c)), None),
    ) + set_minus(bs, as_).map_values(
        |c: (Seq<char>, Seq<char>)| entry(path, DiffKind::ConstraintRemoved, Some(custom_text(c)), None, None),
    )
}

/// The differences between two versions of one field, at `path`: type,
/// required flag, range, length, non-empty, patterns, customs, description.
#[verifier::opaque]
pub open spec fn field_diff(b: FieldView, a: FieldView, path: Seq<SegView>, rf: spec_fn(u64) -> Seq<char>) -> Seq<
    DiffView,
> {
    (if !types_equal_ignoring_map_keys(b.ty, a.ty) {
        seq![entry(path, DiffKind::TypeChanged, Some(type_text(b.ty)), Some(type_text(a.ty)), None)]
    } else {
        Seq::empty()
    }) + (if b.required != a.required {
        seq![entry(path, DiffKind::RequiredChanged, Some(bool_text(b.required)), Some(bool_text(a.required)), None)]
    } else {
        Seq::empty()
    }) + range_part(b.constraints, a.constraints, path, rf) + length_part(b.constraints, a.constraints, path)
        + non_empty_part(b.constraints, a.constraints, path) + pattern_part(b.constraints, a.constraints, path)
        + custom_part(b.constraints, a.constraints, path) + (if b.description != a.description {
        seq![entry(path, DiffKind::DescriptionChanged, b.description, a.description, None)]
    } else {
        Seq::empty()
    })
}

/// The entries for the first `n` fields of the newer schema.
pub open spec fn added_or_changed(bfs: Seq<FieldView>, afs: Seq<FieldView>, n: nat, rf: spec_fn(u64) -> Seq<char>) -> Seq<
    DiffView,
>
    decreases n,
{
    if n == 0 || n > afs.len() {
        Seq::empty()
    } else {
        let f = afs[n - 1];
        let path = seq![SegView::Field(f.name)];
        added_or_changed(bfs, afs, (n - 1) as nat, rf) + match field_index(bfs, f.name) {
            None => seq![entry(path, DiffKind::FieldAdded, None, Some(field_text(f)), None)],
            Some(i) => field_diff(bfs[i], f, path, rf),
        }
    }
}

/// The entries for the first `n` fields of the older schema that the newer
/// one lacks.
pub open spec fn removed(bfs: Seq<FieldView>, afs: Seq<FieldView>, n: nat) -> Seq<DiffView>
    decreases n,
{
    if n == 0 || n > bfs.len() {
        Seq::empty()
    } else {
        let f = bfs[n - 1];
        removed(bfs, afs, (n - 1) as nat) + if field_index(afs, f.name) is None {
            seq![entry(seq![SegView::Field(f.name)], DiffKind::FieldRemoved, Some(field_text(f)), None, None)]
        } else {
            Seq::empty()
        }
    }
}

/// The structural diff from `bfs` to `afs`.
pub open spec fn diff_spec(bfs: Seq<FieldView>, afs: Seq<FieldView>, rf: spec_fn(u64) -> Seq<char>) -> Seq<DiffView> {
    added_or_changed(bfs, afs, afs.len(), rf) + removed(bfs, afs, bfs.len())
}

fn push_entry(entries: &mut Vec<DiffEntry>, e: DiffEntry)
    ensures
        diff_views(final(entries)@) == diff_views(old(entries)@).push(e@),
{
    entries.push(e);
    proof {
        assert(diff_views(final(entries)@) =~= diff_views(old(entries)@).push(e@));
    }
}

fn make_entry(
    path: &Path,
    kind: DiffKind,
    before: Option<String>,
    after: Option<String>,
    bounds: Option<(u64, u64)>,
) -> (r: DiffEntry)
    ensures
        r@ == entry(path@, kind, opt_text(before), opt_text(after), bounds),
{
    DiffEntry { path: path.clone(), kind, before, after, bounds }
}

fn opt_float_string<R: Fn(u64) -> String>(v: Option<u64>, render: &R) -> (r: String)
    requires
        renders_floats(*render),
    ensures
        r@ == opt_float_text(v, |x: u64| rendered(*render, x)),
{
    match v {
        Some(x) => render_bits(render, x),
        None => "none".to_string(),
    }
}

fn opt_length_string(v: Option<u64>) -> (r: String)
    ensures
        r@ == opt_length_text(v),
{
    match v {
        Some(x) => decimal_string(x),
        None => "none".to_string(),
    }
}

fn envelope_string(head: &str, lo: String, hi: String) -> (r: String)
    ensures
        r@ == envelope_text(head@, lo@, hi@),
{
    let mut r = String::new();
    push_str(&mut r, head);
    push_str(&mut r, "{min: ");
    push_str(&mut r, lo.as_str());
    push_str(&mut r, ", max: ");
    push_str(&mut r, hi.as_str());
    push_str(&mut r, "}");
    proof {
        assert(r@ =~= envelope_text(head@, lo@, hi@));
    }
    r
}

pub(crate) fn opt_f64_equal(a: Option<u64>, b: Option<u64>) -> (r: bool)
    ensures
        r == opt_f64_eq(a, b),
{
    match (a, b) {
        (Some(x), Some(y)) => eq(x, y),
        (None, None) => true,
        _ => false,
    }
}

fn bound_unchanged_exec(a: Option<u64>, b: Option<u64>) -> (r: bool)
    ensures
        r == bound_unchanged(a, b),
{
    match (a, b) {
        (Some(x), Some(y)) => eq(x, y) || (is_nan(x) && is_nan(y)),
        (None, None) => true,
        _ => false,
    }
}

fn diff_range<R: Fn(u64) -> String>(
    before: &[Constraint],
    after: &[Constraint],
    path: &Path,
    entries: &mut Vec<DiffEntry>,
    render: &R,
)
    requires
        renders_floats(*render),
    ensures
        diff_views(final(entries)@) == diff_views(old(entries)@) + range_part(
            constraint_views(before@),
            constraint_views(after@),
            path@,
            |x: u64| rendered(*render, x),
        ),
{
    proof {
        reveal(range_part);
    }
    let ghost rf = |x: u64| rendered(*render, x);
    let b = effective_range_of(before);
    let a = effective_range_of(after);
    match (b, a) {
        (None, None) => {},
        (None, Some((mn, mx))) => {
            let t = envelope_string("Range", opt_float_string(mn, render), opt_float_string(mx, render));
            push_entry(entries, make_entry(path, DiffKind::ConstraintAdded, None, Some(t), None));
        },
        (Some((mn, mx)), None) => {
            let t = envelope_string("Range", opt_float_string(mn, render), opt_float_string(mx, render));
            push_entry(entries, make_entry(path, DiffKind::ConstraintRemoved, Some(t), None, None));
        },
        (Some((bmin, bmax)), Some((amin, amax))) => {
            let ghost start = diff_views(entries@);
            if !bound_unchanged_exec(bmin, amin) {
                let p = path.field("minimum");
                let bb = match bmin {
                    Some(x) => x,
                    None => 0xfff0_0000_0000_0000,
                };
                let ab = match amin {
                    Some(x) => x,
                    None => 0xfff0_0000_0000_0000,
                };
                push_entry(
                    entries,
                    make_entry(
                        &p,
                        DiffKind::ConstraintChanged,
                        Some(opt_float_string(bmin, render)),
                        Some(opt_float_string(amin, render)),
                        Some((bb, ab)),
                    ),
                );
            }
            let ghost mid = diff_views(entries@);
            proof {
                let part = if !bound_unchanged(bmin, amin) {
                    seq![entry(minimum_path(path@), DiffKind::ConstraintChanged, Some(opt_float_text(bmin, rf)), Some(opt_float_text(amin, rf)), Some((float_bound_bits(bmin, neg_inf_bits()), float_bound_bits(amin, neg_inf_bits()))))]
                } else {
                    Seq::<DiffView>::empty()
                };
                assert(mid =~= start + part);
            }
            if !bound_unchanged_exec(bmax, amax) {
                let p = path.field("maximum");
                let bb = match bmax {
                    Some(x) => x,
                    None => 0x7ff0_0000_0000_0000,
                };
                let ab = match amax {
                    Some(x) => x,
                    None => 0x7ff0_0000_0000_0000,
                };
                push_entry(
                    entries,
                    make_entry(
                        &p,
                        DiffKind::ConstraintChanged,
                        Some(opt_float_string(bmax, render)),
                        Some(opt_float_string(amax, render)),
                        Some((bb, ab)),
                    ),
                );
            }
        },
    }
    proof {
        assert(diff_views(final(entries)@) =~= diff_views(old(entries)@) + range_part(
            constraint_views(before@),
            constraint_views(after@),
            path@,
            rf,
        ));
    }
}

fn length_bits(v: Option<u64>, inf: u64) -> (r: u64)
    ensures
        r == length_bound_bits(v, inf),
{
    match v {
        Some(x) => u64_to_f64_bits(x),
        None => inf,
    }
}

fn diff_length(before: &[Constraint], after: &[Constraint], path: &Path, entries: &mut Vec<DiffEntry>)
    ensures
        diff_views(final(entries)@) == diff_views(old(entries)@) + length_part(
            constraint_views(before@),
            constraint_views(after@),
            path@,
        ),
{
    proof {
        reveal(length_part);
    }
    let b = effective_length_of(before);
    let a = effective_length_of(after);
    match (b, a) {
        (None, None) => {},
        (None, Some((mn, mx))) => {
            let t = envelope_string("Length", opt_length_string(mn), opt_length_string(mx));
            push_entry(entries, make_entry(path, DiffKind::ConstraintAdded, None, Some(t), None));
        },
        (Some((mn, mx)), None) => {
            let t = envelope_string("Length", opt_length_string(mn), opt_length_string(mx));
            push_entry(entries, make_entry(path, DiffKind::ConstraintRemoved, Some(t), None, None));
        },
        (Some((bmin, bmax)), Some((amin, amax))) => {
            let ghost start = diff_views(entries@);
            if bmin != amin {
                let p = path.field("minimum");
                let bounds = (length_bits(bmin, 0xfff0_0000_0000_0000), length_bits(amin, 0xfff0_0000_0000_0000));
                push_entry(
                    entries,
                    make_entry(
                        &p,
                        DiffKind::ConstraintChanged,
                        Some(opt_length_string(bmin)),
                        Some(opt_length_string(amin)),
                        Some(bounds),
                    ),
                );
            }
            let ghost mid = diff_views(entries@);
            proof {
                let part = if bmin != amin {
                    seq![entry(minimum_path(path@), DiffKind::ConstraintChanged, Some(opt_length_text(bmin)), Some(opt_length_text(amin)), Some((length_bound_bits(bmin, neg_inf_bits()), length_bound_bits(amin, neg_inf_bits()))))]
                } else {
                    Seq::<DiffView>::empty()
                };
                assert(mid =~= start + part);
            }
            if bmax != amax {
                let p = path.field("maximum");
                let bounds = (length_bits(bmax, 0x7ff0_0000_0000_0000), length_bits(amax, 0x7ff0_0000_0000_0000));
                push_entry(
                    entries,
                    make_entry(
                        &p,
                        DiffKind::ConstraintChanged,
                        Some(opt_length_string(bmax)),
                        Some(opt_length_string(amax)),
                        Some(bounds),
                    ),
                );
            }
        },
    }
    proof {
        assert(diff_views(final(entries)@) =~= diff_views(old(entries)@) + length_part(
            constraint_views(before@),
            constraint_views(after@),
            path@,
        ));
    }
}

fn diff_non_empty(before: &[Constraint], after: &[Constraint], path: &Path, entries: &mut Vec<DiffEntry>)
    ensures
        diff_views(final(entries)@) == diff_views(old(entries)@) + non_empty_part(
            constraint_views(before@),
            constraint_views(after@),
            path@,
        ),
{
    proof {
        reveal(non_empty_part);
    }
    let b = has_non_empty_of(before);
    let a = has_non_empty_of(after);
    if !b && a {
        push_entry(entries, make_entry(path, DiffKind::ConstraintAdded, None, Some("NonEmpty".to_string()), None));
    } else if b && !a {
        push_entry(entries, make_entry(path, DiffKind::ConstraintRemoved, Some("NonEmpty".to_string()), None, None));
    }
    proof {
        assert(diff_views(final(entries)@) =~= diff_views(old(entries)@) + non_empty_part(
            constraint_views(before@),
            constraint_views(after@),
            path@,
        ));
    }
}

fn text_contains(v: &Vec<String>, x: &String) -> (r: bool)
    ensures
        r == text_views(v@).contains(x@),
{
    let mut i: usize = 0;
    while i < v.len()
        invariant
            i <= v@.len(),
            forall|j: int| 0 <= j < i ==> text_views(v@)[j] != x@,
        decreases v@.len() - i,
    {
        if str_eq(v[i].as_str(), x.as_str()) {
            proof {
                assert(text_views(v@)[i as int] == x@);
            }
            return true;
        }
        i = i + 1;
    }
    false
}

fn pair_contains(v: &Vec<(String, String)>, x: &(String, String)) -> (r: bool)
    ensures
        r == pair_views(v@).contains((x.0@, x.1@)),
{
    let mut i: usize = 0;
    while i < v.len()
        invariant
            i <= v@.len(),
            forall|j: int| 0 <= j < i ==> pair_views(v@)[j] != (x.0@, x.1@),
        decreases v@.len() - i,
    {
        if pair_equal(&v[i], x) {
            proof {
                assert(pair_views(v@)[i as int] == (x.0@, x.1@));
            }
            return true;
        }
        i = i + 1;
    }
    false
}

fn pattern_string(g: &String) -> (r: String)
    ensures
        r@ == pattern_text(g@),
{
    let mut r = String::new();
    push_str(&mut r, "Pattern(");
    push_str(&mut r, debug_str(g.as_str()).as_str());
    push_str(&mut r, ")");
    proof {
        assert(r@ =~= pattern_text(g@));
    }
    r
}

fn custom_string(c: &(String, String)) -> (r: String)
    ensures
        r@ == custom_text((c.0@, c.1@)),
{
    let mut r = String::new();
    push_str(&mut r, "Custom(");
    push_str(&mut r, debug_str(c.0.as_str()).as_str());
    push_str(&mut r, ", ");
    push_str(&mut r, debug_str(c.1.as_str()).as_str());
    push_str(&mut r, ")");
    proof {
        assert(r@ =~= custom_text((c.0@, c.1@)));
    }
    r
}

/// One step of a filtered prefix.
proof fn lemma_filter_step<T>(s: Seq<T>, i: int, p: spec_fn(T) -> bool)
    requires
        0 <= i < s.len(),
    ensures
        s.take(i + 1).filter(p) == (if p(s[i]) {
            s.take(i).filter(p).push(s[i])
        } else {
            s.take(i).filter(p)
        }),
{
    reveal(Seq::filter);
    assert(s.take(i + 1).drop_last() =~= s.take(i));
}

fn push_missing_patterns(
    from: &Vec<String>,
    other: &Vec<String>,
    path: &Path,
    added: bool,
    entries: &mut Vec<DiffEntry>,
)
    ensures
        diff_views(final(entries)@) == diff_views(old(entries)@) + set_minus(text_views(from@), text_views(other@)).map_values(
            |g: Seq<char>|
                if added {
                    entry(path@, DiffKind::ConstraintAdded, None, Some(pattern_text(g)), None)
                } else {
                    entry(path@, DiffKind::ConstraintRemoved, Some(pattern_text(g)), None, None)
                },
        ),
{
    let ghost fv = text_views(from@);
    let ghost ov = text_views(other@);
    let ghost f = |g: Seq<char>|
        if added {
            entry(path@, DiffKind::ConstraintAdded, None, Some(pattern_text(g)), None)
        } else {
            entry(path@, DiffKind::ConstraintRemoved, Some(pattern_text(g)), None, None)
        };
    let ghost pred = |x: Seq<char>| !ov.contains(x);
    let ghost start = diff_views(entries@);
    let mut i: usize = 0;
    proof {
        reveal(Seq::filter);
        assert(fv.take(0) =~= Seq::<Seq<char>>::empty());
        assert(diff_views(entries@) =~= start + fv.take(0).filter(pred).map_values(f));
    }
    while i < from.len()
        invariant
            i <= from@.len(),
            fv == text_views(from@),
            ov == text_views(other@),
            pred == (|x: Seq<char>| !ov.contains(x)),
            f == (|g: Seq<char>|
                if added {
                    entry(path@, DiffKind::ConstraintAdded, None, Some(pattern_text(g)), None)
                } else {
                    entry(path@, DiffKind::ConstraintRemoved, Some(pattern_text(g)), None, None)
                }),
            diff_views(entries@) == start + fv.take(i as int).filter(pred).map_values(f),
        decreases from@.len() - i,
    {
        proof {
            lemma_filter_step(fv, i as int, pred);
            assert(fv[i as int] == from@[i as int]@);
        }
        if !text_contains(other, &from[i]) {
            let t = pattern_string(&from[i]);
            let e = if added {
                make_entry(path, DiffKind::ConstraintAdded, None, Some(t), None)
            } else {
                make_entry(path, DiffKind::ConstraintRemoved, Some(t), None, None)
            };
            push_entry(entries, e);
            proof {
                let old_f = fv.take(i as int).filter(pred);
                assert(e@ == f(fv[i as int]));
                assert(old_f.push(fv[i as int]).map_values(f) =~= old_f.map_values(f).push(f(fv[i as int])));
                assert(diff_views(entries@) =~= start + fv.take(i as int + 1).filter(pred).map_values(f));
            }
        }
        i = i + 1;
    }
    proof {
        assert(fv.take(fv.len() as int) =~= fv);
    }
}

fn push_missing_customs(
    from: &Vec<(String, String)>,
    other: &Vec<(String, String)>,
    path: &Path,
    added: bool,
    entries: &mut Vec<DiffEntry>,
)
    ensures
        diff_views(final(entries)@) == diff_views(old(entries)@) + set_minus(pair_views(from@), pair_views(other@)).map_values(
            |c: (Seq<char>, Seq<char>)|
                if added {
                    entry(path@, DiffKind::ConstraintAdded, None, Some(custom_text(c)), None)
                } else {
                    entry(path@, DiffKind::ConstraintRemoved, Some(custom_text(c)), None, None)
                },
        ),
{
    let ghost fv = pair_views(from@);
    let ghost ov = pair_views(other@);
    let ghost f = |c: (Seq<char>, Seq<char>)|
        if added {
            entry(path@, DiffKind::ConstraintAdded, None, Some(custom_text(c)), None)
        } else {
            entry(path@, DiffKind::ConstraintRemoved, Some(custom_text(c)), None, None)
        };
    let ghost pred = |x: (Seq<char>, Seq<char>)| !ov.contains(x);
    let ghost start = diff_views(entries@);
    let mut i: usize = 0;
    proof {
        reveal(Seq::filter);
        assert(fv.take(0) =~= Seq::<(Seq<char>, Seq<char>)>::empty());
        assert(diff_views(entries@) =~= start + fv.take(0).filter(pred).map_values(f));
    }
    while i < from.len()
        invariant
            i <= from@.len(),
            fv == pair_views(from@),
            ov == pair_views(other@),
            pred == (|x: (Seq<char>, Seq<char>)| !ov.contains(x)),
            f == (|c: (Seq<char>, Seq<char>)|
                if added {
                    entry(path@, DiffKind::ConstraintAdded, None, Some(custom_text(c)), None)
                } else {
                    entry(path@, DiffKind::ConstraintRemoved, Some(custom_text(c)), None, None)
                }),
            diff_views(entries@) == start + fv.take(i as int).filter(pred).map_values(f),
        decreases from@.len() - i,
    {
        proof {
            lemma_filter_step(fv, i as int, pred);
            assert(fv[i as int] == (from@[i as int].0@, from@[i as int].1@));
        }
        if !pair_contains(other, &from[i]) {
            let t = custom_string(&from[i]);
            let e = if added {
                make_entry(path, DiffKind::ConstraintAdded, None, Some(t), None)
            } else {
                make_entry(path, DiffKind::ConstraintRemoved, Some(t), None, None)
            };
            push_entry(entries, e);
            proof {
                let old_f = fv.take(i as int).filter(pred);
                assert(e@ == f(fv[i as int]));
                assert(old_f.push(fv[i as int]).map_values(f) =~= old_f.map_values(f).push(f(fv[i as int])));
                assert(diff_views(entries@) =~= start + fv.take(i as int + 1).filter(pred).map_values(f));
            }
        }
        i = i + 1;
    }
    proof {
        assert(fv.take(fv.len() as int) =~= fv);
    }
}

fn diff_patterns(before: &[Constraint], after: &[Constraint], path: &Path, entries: &mut Vec<DiffEntry>)
    ensures
        diff_views(final(entries)@) == diff_views(old(entries)@) + pattern_part(
            constraint_views(before@),
            constraint_views(after@),
            path@,
        ),
{
    proof {
        reveal(pattern_part);
    }
    let bs = pattern_grammars_of(before);
    let as_ = pattern_grammars_of(after);
    push_missing_patterns(&as_, &bs, path, true, entries);
    push_missing_patterns(&bs, &as_, path, false, entries);
    proof {
        let bv = pattern_grammars(constraint_views(before@));
        let av = pattern_grammars(constraint_views(after@));
        assert(set_minus(av, bv).map_values(
            |g: Seq<char>|
                if true {
                    entry(path@, DiffKind::ConstraintAdded, None, Some(pattern_text(g)), None)
                } else {
                    entry(path@, DiffKind::ConstraintRemoved, Some(pattern_text(g)), None, None)
                },
        ) =~= set_minus(av, bv).map_values(
            |g: Seq<char>| entry(path@, DiffKind::ConstraintAdded, None, Some(pattern_text(g)), None),
        ));
        assert(set_minus(bv, av).map_values(
            |g: Seq<char>|
                if false {
                    entry(path@, DiffKind::ConstraintAdded, None, Some(pattern_text(g)), None)
                } else {
                    entry(path@, DiffKind::ConstraintRemoved, Some(pattern_text(g)), None, None)
                },
        ) =~= set_minus(bv, av).map_values(
            |g: Seq<char>| entry(path@, DiffKind::ConstraintRemoved, Some(pattern_text(g)), None, None),
        ));
        assert(diff_views(final(entries)@) =~= diff_views(old(entries)@) + pattern_part(
            constraint_views(before@),
            constraint_views(after@),
            path@,
        ));
    }
}

fn diff_customs(before: &[Constraint], after: &[Constraint], path: &Path, entries: &mut Vec<DiffEntry>)
    ensures
        diff_views(final(entries)@) == diff_views(old(entries)@) + custom_part(
            constraint_views(before@),
            constraint_views(after@),
            path@,
        ),
{
    proof {
        reveal(custom_part);
    }
    let bs = custom_constraints_of(before);
    let as_ = custom_constraints_of(after);
    push_missing_customs(&as_, &bs, path, true, entries);
    push_missing_customs(&bs, &as_, path, false, entries);
    proof {
        let bv = custom_constraints(constraint_views(before@));
        let av = custom_constraints(constraint_views(after@));
        assert(set_minus(av, bv).map_values(
            |c: (Seq<char>, Seq<char>)|
                if true {
                    entry(path@, DiffKind::ConstraintAdded, None, Some(custom_text(c)), None)
                } else {
                    entry(path@, DiffKind::ConstraintRemoved, Some(custom_text(c)), None, None)
                },
        ) =~= set_minus(av, bv).map_values(
            |c: (Seq<char>, Seq<char>)| entry(path@, DiffKind::ConstraintAdded, None, Some(custom_text(c)), None),
        ));
        assert(set_minus(bv, av).map_values(
            |c: (Seq<char>, Seq<char>)|
                if false {
                    entry(path@, DiffKind::ConstraintAdded, None, Some(custom_text(c)), None)
                } else {
                    entry(path@, DiffKind::ConstraintRemoved, Some(custom_text(c)), None, None)
                },
        ) =~= set_minus(bv, av).map_values(
            |c: (Seq<char>, Seq<char>)| entry(path@, DiffKind::ConstraintRemoved, Some(custom_text(c)), None, None),
        ));
        assert(diff_views(final(entries)@) =~= diff_views(old(entries)@) + custom_part(
            constraint_views(before@),
            constraint_views(after@),
            path@,
        ));
    }
}

fn field_string(f: &Field) -> (r: String)
    ensures
        r@ == field_text(f@),
{
    let mut r = f.ty().to_string();
    push_str(&mut r, " (");
    push_str(&mut r, if f.is_required() { "required" } else { "optional" });
    push_str(&mut r, ")");
    proof {
        assert(r@ =~= field_text(f@));
    }
    r
}

fn bool_string(b: bool) -> (r: String)
    ensures
        r@ == bool_text(b),
{
    if b {
        "true".to_string()
    } else {
        "false".to_string()
    }
}

pub(crate) fn opt_str_equal(a: Option<&str>, b: Option<&str>) -> (r: bool)
    ensures
        r == (match (a, b) {
            (Some(x), Some(y)) => x@ == y@,
            (None, None) => true,
            _ => false,
        }),
{
    match (a, b) {
        (Some(x), Some(y)) => str_eq(x, y),
        (None, None) => true,
        _ => false,
    }
}

fn opt_owned(a: Option<&str>) -> (r: Option<String>)
    ensures
        opt_text(r) == (match a {
            Some(x) => Some(x@),
            None => None::<Seq<char>>,
        }),
{
    match a {
        Some(x) => Some(x.to_string()),
        None => None,
    }
}

fn diff_field<R: Fn(u64) -> String>(
    before: &Field,
    after: &Field,
    path: &Path,
    entries: &mut Vec<DiffEntry>,
    render: &R,
)
    requires
        renders_floats(*render),
    ensures
        diff_views(final(entries)@) == diff_views(old(entries)@) + field_diff(
            before@,
            after@,
            path@,
            |x: u64| rendered(*render, x),
        ),
{
    let ghost rf = |x: u64| rendered(*render, x);
    let ghost start = diff_views(entries@);
    if !types_equal(before.ty(), after.ty()) {
        push_entry(
            entries,
            make_entry(
                path,
                DiffKind::TypeChanged,
                Some(before.ty().to_string()),
                Some(after.ty().to_string()),
                None,
            ),
        );
    }
    if before.is_required() != after.is_required() {
        push_entry(
            entries,
            make_entry(
                path,
                DiffKind::RequiredChanged,
                Some(bool_string(before.is_required())),
                Some(bool_string(after.is_required())),
                None,
            ),
        );
    }
    let ghost s1 = diff_views(entries@);
    let bc = before.constraints();
    let ac = after.constraints();
    diff_range(bc, ac, path, entries, render);
    diff_length(bc, ac, path, entries);
    diff_non_empty(bc, ac, path, entries);
    diff_patterns(bc, ac, path, entries);
    diff_customs(bc, ac, path, entries);
    let ghost s2 = diff_views(entries@);
    let bd = before.description_text();
    let ad = after.description_text();
    if !opt_str_equal(bd, ad) {
        push_entry(entries, make_entry(path, DiffKind::DescriptionChanged, opt_owned(bd), opt_owned(ad), None));
    }
    proof {
        let t = if !types_equal_ignoring_map_keys(before@.ty, after@.ty) {
            seq![entry(path@, DiffKind::TypeChanged, Some(type_text(before@.ty)), Some(type_text(after@.ty)), None)]
        } else {
            Seq::<DiffView>::empty()
        };
        let q = if before@.required != after@.required {
            seq![entry(path@, DiffKind::RequiredChanged, Some(bool_text(before@.required)), Some(bool_text(after@.required)), None)]
        } else {
            Seq::<DiffView>::empty()
        };
        assert(s1 =~= start + t + q);
        assert(constraint_views(bc@) == before@.constraints);
        assert(constraint_views(ac@) == after@.constraints);
        reveal(field_diff);
        assert(diff_views(entries@) =~= start + field_diff(before@, after@, path@, rf));
    }
}

fn push_added_or_changed<R: Fn(u64) -> String>(
    before: &Schema,
    after: &Schema,
    entries: &mut Vec<DiffEntry>,
    render: &R,
)
    requires
        renders_floats(*render),
        diff_views(old(entries)@) == Seq::<DiffView>::empty(),
    ensures
        diff_views(final(entries)@) == added_or_changed(
            before.fields_spec(),
            after.fields_spec(),
            after.fields_spec().len(),
            |x: u64| rendered(*render, x),
        ),
{
    let ghost rf = |x: u64| rendered(*render, x);
    let ghost bfs = before.fields_spec();
    let ghost afs = after.fields_spec();
    let root = Path::root();
    let after_fields = after.fields();
    let mut i: usize = 0;
    while i < after_fields.len()
        invariant
            i <= after_fields@.len(),
            afs == fields_view(after_fields@),
            afs == after.fields_spec(),
            bfs == before.fields_spec(),
            root@ == Seq::<SegView>::empty(),
            renders_floats(*render),
            rf == (|x: u64| rendered(*render, x)),
            diff_views(entries@) == added_or_changed(bfs, afs, i as nat, rf),
        decreases after_fields@.len() - i,
    {
        let af = &after_fields[i];
        let path = root.field(af.name());
        proof {
            assert(afs[i as int] == af@);
            assert(path@ =~= seq![SegView::Field(af@.name)]);
            lemma_field_index_found(bfs, af@.name);
        }
        match before.field(af.name()) {
            None => {
                push_entry(entries, make_entry(&path, DiffKind::FieldAdded, None, Some(field_string(af)), None));
            },
            Some(bf) => {
                diff_field(bf, af, &path, entries, render);
            },
        }
        i = i + 1;
    }
}

fn push_removed(before: &Schema, after: &Schema, entries: &mut Vec<DiffEntry>)
    ensures
        diff_views(final(entries)@) == diff_views(old(entries)@) + removed(
            before.fields_spec(),
            after.fields_spec(),
            before.fields_spec().len(),
        ),
{
    let ghost bfs = before.fields_spec();
    let ghost afs = after.fields_spec();
    let root = Path::root();
    let before_fields = before.fields();
    let ghost mid = diff_views(entries@);
    let mut j: usize = 0;
    proof {
        assert(mid =~= mid + removed(bfs, afs, 0));
    }
    while j < before_fields.len()
        invariant
            j <= before_fields@.len(),
            bfs == fields_view(before_fields@),
            afs == after.fields_spec(),
            bfs == before.fields_spec(),
            root@ == Seq::<SegView>::empty(),
            diff_views(entries@) == mid + removed(bfs, afs, j as nat),
        decreases before_fields@.len() - j,
    {
        let bf = &before_fields[j];
        proof {
            assert(bfs[j as int] == bf@);
        }
        if after.field(bf.name()).is_none() {
            let path = root.field(bf.name());
            proof {
                assert(path@ =~= seq![SegView::Field(bf@.name)]);
            }
            push_entry(entries, make_entry(&path, DiffKind::FieldRemoved, Some(field_string(bf)), None, None));
            proof {
                assert(diff_views(entries@) =~= mid + removed(bfs, afs, (j + 1) as nat));
            }
        } else {
            proof {
                assert(diff_views(entries@) =~= mid + removed(bfs, afs, (j + 1) as nat));
            }
        }
        j = j + 1;
    }
}

/// Computes the structural diff from `before` to `after`. Same-kind
/// constraints on one field are folded into their effective envelope
/// before comparison. Doubles in the texts are rendered by `render`.
pub fn diff<R: Fn(u64) -> String>(before: &Schema, after: &Schema, render: &R) -> (r: SchemaDiff)
    requires
        renders_floats(*render),
    ensures
        r@ == diff_spec(before.fields_spec(), after.fields_spec(), |x: u64| rendered(*render, x)),
{
    let mut entries: Vec<DiffEntry> = Vec::new();
    proof {
        assert(diff_views(entries@) =~= Seq::<DiffView>::empty());
    }
    push_added_or_changed(before, after, &mut entries, render);
    push_removed(before, after, &mut entries);
    SchemaDiff { entries }
}

/// Which display section a kind belongs to: added, removed, or changed.
pub open spec fn kind_class(k: DiffKind) -> u8 {
    match k {
        DiffKind::FieldAdded | DiffKind::ConstraintAdded => 0,
        DiffKind::FieldRemoved | DiffKind::ConstraintRemoved => 1,
        _ => 2,
    }
}

fn class_of(k: DiffKind) -> (r: u8)
    ensures
        r == kind_class(k),
{
    match k {
        DiffKind::FieldAdded | DiffKind::ConstraintAdded => 0,
        DiffKind::FieldRemoved | DiffKind::ConstraintRemoved => 1,
        _ => 2,
    }
}

/// The entries of one display section.
pub open spec fn section(es: Seq<DiffView>, class: u8) -> Seq<DiffView> {
    es.filter(|e: DiffView| kind_class(e.kind) == class)
}

/// One entry's display lines: its path, and for a change with both sides,
/// `before → after`.
pub open spec fn entry_lines(e: DiffView, changed: bool) -> Seq<char> {
    "  "@ + path_text(e.path) + "\n"@ + if changed && e.before is Some && e.after is Some {
        "  "@ + e.before->0 + " → "@ + e.after->0 + "\n"@
    } else {
        Seq::empty()
    }
}

pub open spec fn lines_of(es: Seq<DiffView>, changed: bool) -> Seq<char>
    decreases es.len(),
{
    if es.len() == 0 {
        Seq::empty()
    } else {
        lines_of(es.drop_last(), changed) + entry_lines(es.last(), changed)
    }
}

/// The text of a diff: `ADDED`, `REMOVED` and `CHANGED` sections, each
/// present only when non-empty and separated by a blank line.
pub open spec fn diff_text(es: Seq<DiffView>) -> Seq<char> {
    let added = section(es, 0);
    let removed = section(es, 1);
    let changed = section(es, 2);
    let s1 = if added.len() > 0 {
        "ADDED\n"@ + lines_of(added, false)
    } else {
        Seq::empty()
    };
    let w1 = added.len() > 0;
    let s2 = if removed.len() > 0 {
        (if w1 {
            "\n"@
        } else {
            Seq::empty()
        }) + "REMOVED\n"@ + lines_of(removed, false)
    } else {
        Seq::empty()
    };
    let w2 = w1 || removed.len() > 0;
    let s3 = if changed.len() > 0 {
        (if w2 {
            "\n"@
        } else {
            Seq::empty()
        }) + "CHANGED\n"@ + lines_of(changed, true)
    } else {
        Seq::empty()
    };
    s1 + s2 + s3
}

fn section_lines(entries: &[DiffEntry], class: u8, changed: bool) -> (r: (String, bool))
    ensures
        r.0@ == lines_of(section(diff_views(entries@), class), changed),
        r.1 == (section(diff_views(entries@), class).len() > 0),
{
    let ghost ev = diff_views(entries@);
    let ghost pred = |e: DiffView| kind_class(e.kind) == class;
    let mut s = String::new();
    let mut any = false;
    let mut i: usize = 0;
    proof {
        reveal(Seq::filter);
        assert(ev.take(0) =~= Seq::<DiffView>::empty());
    }
    while i < entries.len()
        invariant
            i <= entries@.len(),
            ev == diff_views(entries@),
            pred == (|e: DiffView| kind_class(e.kind) == class),
            s@ == lines_of(ev.take(i as int).filter(pred), changed),
            any == (ev.take(i as int).filter(pred).len() > 0),
        decreases entries@.len() - i,
    {
        let e = &entries[i];
        proof {
            lemma_filter_step(ev, i as int, pred);
            assert(ev[i as int] == e@);
        }
        if class_of(e.kind) == class {
            push_str(&mut s, "  ");
            push_str(&mut s, e.path.to_string().as_str());
            push_str(&mut s, "\n");
            if changed {
                if let (Some(b), Some(a)) = (&e.before, &e.after) {
                    push_str(&mut s, "  ");
                    push_str(&mut s, b.as_str());
                    push_str(&mut s, " → ");
                    push_str(&mut s, a.as_str());
                    push_str(&mut s, "\n");
                }
            }
            any = true;
            proof {
                let f = ev.take(i as int).filter(pred);
                assert(f.push(e@).drop_last() =~= f);
                assert(s@ =~= lines_of(f.push(e@), changed));
            }
        }
        i = i + 1;
    }
    proof {
        assert(ev.take(ev.len() as int) =~= ev);
    }
    (s, any)
}

impl SchemaDiff {
    /// The text of the diff, as it is shown to users.
    pub fn to_string(&self) -> (r: String)
        ensures
            r@ == diff_text(self@),
    {
        let (added, has_added) = section_lines(self.entries.as_slice(), 0, false);
        let (removed, has_removed) = section_lines(self.entries.as_slice(), 1, false);
        let (changed, has_changed) = section_lines(self.entries.as_slice(), 2, true);
        let mut r = String::new();
        let mut wrote = false;
        if has_added {
            push_str(&mut r, "ADDED\n");
            push_str(&mut r, added.as_str());
            wrote = true;
        }
        if has_removed {
            if wrote {
                push_str(&mut r, "\n");
            }
            push_str(&mut r, "REMOVED\n");
            push_str(&mut r, removed.as_str());
            wrote = true;
        }
        if has_changed {
            if wrote {
                push_str(&mut r, "\n");
            }
            push_str(&mut r, "CHANGED\n");
            push_str(&mut r, changed.as_str());
        }
        proof {
            assert(r@ =~= diff_text(self@));
        }
        r
    }
}

/// The compatibility verdict for one change, or the aggregate verdict for a
/// whole report. `analyze` never produces `ConditionallyCompatible` or
/// `Unknown`; they stay for forward compatibility.
#[derive(Debug, Clone, Copy, PartialEq, Eq, Structural)]
pub enum CompatibilityLevel {
    Identical,
    Compatible,
    ConditionallyCompatible,
    Unknown,
    Breaking,
}

/// Severity order used to aggregate findings: compatible (and identical)
/// lowest, then conditionally compatible, unknown, breaking.
pub open spec fn rank(level: CompatibilityLevel) -> u8 {
    match level {
        CompatibilityLevel::Compatible => 0,
        CompatibilityLevel::ConditionallyCompatible => 1,
        CompatibilityLevel::Unknown => 2,
        CompatibilityLevel::Breaking => 3,
        CompatibilityLevel::Identical => 0,
    }
}

pub fn severity_rank(level: CompatibilityLevel) -> (r: u8)
    ensures
        r == rank(level),
{
    match level {
        CompatibilityLevel::Compatible => 0,
        CompatibilityLevel::ConditionallyCompatible => 1,
        CompatibilityLevel::Unknown => 2,
        CompatibilityLevel::Breaking => 3,
        CompatibilityLevel::Identical => 0,
    }
}

/// `t` starts with `p`.
pub open spec fn starts_with(t: Seq<char>, p: Seq<char>) -> bool {
    t.len() >= p.len() && t.subrange(0, p.len() as int) == p
}

/// `t` ends with `p`.
pub open spec fn ends_with(t: Seq<char>, p: Seq<char>) -> bool {
    t.len() >= p.len() && t.subrange(t.len() - p.len(), t.len() as int) == p
}

/// The path names a `minimum` bound.
pub open spec fn is_minimum_path(path: Seq<SegView>) -> bool {
    path.len() > 0 && path.last() == SegView::Field("minimum"@)
}

/// The classification of one diff entry, from the entry alone.
pub open spec fn classify(e: DiffView) -> CompatibilityLevel {
    match e.kind {
        DiffKind::FieldAdded => if e.after matches Some(t) && ends_with(t, "(required)"@) {
            CompatibilityLevel::Breaking
        } else {
            CompatibilityLevel::Compatible
        },
        DiffKind::FieldRemoved => CompatibilityLevel::Breaking,
        DiffKind::TypeChanged => CompatibilityLevel::Breaking,
        DiffKind::RequiredChanged => if e.after == Some("true"@) {
            CompatibilityLevel::Breaking
        } else {
            CompatibilityLevel::Compatible
        },
        DiffKind::ConstraintAdded => if e.after matches Some(t) && starts_with(t, "Custom("@) {
            CompatibilityLevel::Compatible
        } else {
            CompatibilityLevel::Breaking
        },
        DiffKind::ConstraintRemoved => CompatibilityLevel::Compatible,
        DiffKind::ConstraintChanged => {
            let narrower = match e.bounds {
                Some((b, a)) => if is_minimum_path(e.path) {
                    f64_lt(b, a)
                } else {
                    f64_lt(a, b)
                },
                None => false,
            };
            if narrower {
                CompatibilityLevel::Breaking
            } else {
                CompatibilityLevel::Compatible
            }
        },
        DiffKind::DescriptionChanged => CompatibilityLevel::Compatible,
    }
}

fn chars_starts_with(t: &str, p: &str) -> (r: bool)
    ensures
        r == starts_with(t@, p@),
{
    let tc = crate::text::chars_of(t);
    let pc = crate::text::chars_of(p);
    if tc.len() < pc.len() {
        return false;
    }
    let mut i: usize = 0;
    while i < pc.len()
        invariant
            i <= pc@.len() <= tc@.len(),
            tc@ == t@,
            pc@ == p@,
            forall|j: int| 0 <= j < i ==> tc@[j] == pc@[j],
        decreases pc@.len() - i,
    {
        if tc[i] != pc[i] {
            proof {
                assert(t@.subrange(0, p@.len() as int)[i as int] != p@[i as int]);
            }
            return false;
        }
        i = i + 1;
    }
    proof {
        assert(t@.subrange(0, p@.len() as int) =~= p@);
    }
    true
}

fn chars_ends_with(t: &str, p: &str) -> (r: bool)
    ensures
        r == ends_with(t@, p@),
{
    let tc = crate::text::chars_of(t);
    let pc = crate::text::chars_of(p);
    if tc.len() < pc.len() {
        return false;
    }
    let n = tc.len();
    let off = n - pc.len();
    let mut i: usize = 0;
    while i < pc.len()
        invariant
            n == tc@.len(),
            i <= pc@.len() <= tc@.len(),
            tc@ == t@,
            pc@ == p@,
            off == tc@.len() - pc@.len(),
            forall|j: int| 0 <= j < i ==> tc@[off + j] == pc@[j],
        decreases pc@.len() - i,
    {
        assert(off + i < n);
        if tc[off + i] != pc[i] {
            proof {
                assert(t@.subrange(t@.len() - p@.len(), t@.len() as int)[i as int] != p@[i as int]);
            }
            return false;
        }
        i = i + 1;
    }
    proof {
        assert(t@.subrange(t@.len() - p@.len(), t@.len() as int) =~= p@);
    }
    true
}

fn is_minimum(path: &Path) -> (r: bool)
    ensures
        r == is_minimum_path(path@),
{
    let segs = path.segments();
    proof {
        assert(segs@.len() == path@.len());
    }
    if segs.len() == 0 {
        return false;
    }
    let last = &segs[segs.len() - 1];
    proof {
        assert(path@.last() == last@);
    }
    match last {
        PathSegment::Field(name) => str_eq(name.as_str(), "minimum"),
        PathSegment::Index(_) => false,
    }
}

/// Decides the level of one diff entry, using only the entry itself.
pub fn classify_level(entry: &DiffEntry) -> (r: CompatibilityLevel)
    ensures
        r == classify(entry@),
{
    match entry.kind {
        DiffKind::FieldAdded => {
            let req = match &entry.after {
                Some(t) => chars_ends_with(t.as_str(), "(required)"),
                None => false,
            };
            if req {
                CompatibilityLevel::Breaking
            } else {
                CompatibilityLevel::Compatible
            }
        },
        DiffKind::FieldRemoved => CompatibilityLevel::Breaking,
        DiffKind::TypeChanged => CompatibilityLevel::Breaking,
        DiffKind::RequiredChanged => {
            let t = match &entry.after {
                Some(t) => str_eq(t.as_str(), "true"),
                None => false,
            };
            if t {
                CompatibilityLevel::Breaking
            } else {
                CompatibilityLevel::Compatible
            }
        },
        DiffKind::ConstraintAdded => {
            let custom = match &entry.after {
                Some(t) => chars_starts_with(t.as_str(), "Custom("),
                None => false,
            };
            if custom {
                CompatibilityLevel::Compatible
            } else {
                CompatibilityLevel::Breaking
            }
        },
        DiffKind::ConstraintRemoved => CompatibilityLevel::Compatible,
        DiffKind::ConstraintChanged => {
            let narrower = match entry.bounds {
                Some((b, a)) => if is_minimum(&entry.path) {
                    lt(b, a)
                } else {
                    lt(a, b)
                },
                None => false,
            };
            if narrower {
                CompatibilityLevel::Breaking
            } else {
                CompatibilityLevel::Compatible
            }
        },
        DiffKind::DescriptionChanged => CompatibilityLevel::Compatible,
    }
}

pub open spec fn migration_action_text() -> Seq<char> {
    "A migration registry (obserde-migrate) now exists but this report does not consult it — bridging this change currently requires either a manually-run obserde-migrate migration or a manual, out-of-band data migration."@
}

/// The required action of a level: only breaking and unknown changes have
/// one.
pub open spec fn required_action(level: CompatibilityLevel) -> Option<Seq<char>> {
    if level == CompatibilityLevel::Breaking || level == CompatibilityLevel::Unknown {
        Some(migration_action_text())
    } else {
        None
    }
}

fn required_action_for(level: CompatibilityLevel) -> (r: Option<String>)
    ensures
        opt_text(r) == required_action(level),
{
    match level {
        CompatibilityLevel::Breaking | CompatibilityLevel::Unknown => Some("A migration registry (obserde-migrate) now exists but this report does not consult it — bridging this change currently requires either a manually-run obserde-migrate migration or a manual, out-of-band data migration.".to_string()),
        _ => None,
    }
}

/// One classified, explained change: reason, previous and new values,
/// impact, and the required action.
#[derive(Debug, PartialEq)]
pub struct CompatibilityFinding {
    pub path: Path,
    pub level: CompatibilityLevel,
    pub reason: String,
    pub previous: Option<String>,
    pub new: Option<String>,
    pub impact: String,
    pub required_action: Option<String>,
}

/// The mathematical value of a `CompatibilityFinding`.
pub struct FindingView {
    pub path: Seq<SegView>,
    pub level: CompatibilityLevel,
    pub reason: Seq<char>,
    pub previous: Option<Seq<char>>,
    pub new: Option<Seq<char>>,
    pub impact: Seq<char>,
    pub required_action: Option<Seq<char>>,
}

impl View for CompatibilityFinding {
    type V = FindingView;

    open spec fn view(&self) -> FindingView {
        FindingView {
            path: self.path@,
            level: self.level,
            reason: self.reason@,
            previous: opt_text(self.previous),
            new: opt_text(self.new),
            impact: self.impact@,
            required_action: opt_text(self.required_action),
        }
    }
}

/// The name of the field a path starts at, or empty.
pub open spec fn field_name_at(path: Seq<SegView>) -> Seq<char> {
    if path.len() > 0 && path[0] is Field {
        path[0]->Field_0
    } else {
        Seq::empty()
    }
}

/// Reason and impact of an added constraint, by its rendered text.
pub open spec fn constraint_added_text(after: Seq<char>, name: Seq<char>) -> (Seq<char>, Seq<char>) {
    if starts_with(after, "Custom("@) {
        ("a Custom constraint was added to field "@ + str_debug(name), "Custom constraints are inspectable but never evaluated by obserde-validate; no validate() outcome can change."@)
    } else if after == "Pattern(\"identifier\")"@ {
        ("a Pattern(\"identifier\") constraint was added to field "@ + str_debug(name), "values not matching the identifier grammar, previously unconstrained, will now be rejected."@)
    } else if starts_with(after, "Pattern("@) {
        (
            "a "@ + after + " constraint was added to field "@ + str_debug(name)
                + ", naming a grammar obserde-validate does not recognize"@,
            "obserde-validate will return a hard ValidateError::InvalidPatternGrammar (not a rejected document) for any value present at this path, previously unconstrained."@,
        )
    } else if starts_with(after, "NonEmpty"@) {
        ("a NonEmpty constraint was added to field "@ + str_debug(name), "empty values, previously accepted, will now be rejected."@)
    } else {
        ("a "@ + after + " constraint was added to field "@ + str_debug(name), "values previously unconstrained on this dimension may now be rejected."@)
    }
}

/// `ty [lo, hi]` or `ty length [lo, hi]`.
pub open spec fn bounds_text(ty: Type, infix: Seq<char>, lo: Seq<char>, hi: Seq<char>) -> Seq<char> {
    type_text(ty) + infix + "["@ + lo + ", "@ + hi + "]"@
}

/// The type and full effective envelope of the named field in both
/// schemas: the range envelope where both have one, else the length
/// envelope where both have one.
pub open spec fn envelope_texts(
    name: Seq<char>,
    bfs: Seq<FieldView>,
    afs: Seq<FieldView>,
    rf: spec_fn(u64) -> Seq<char>,
) -> (Option<Seq<char>>, Option<Seq<char>>) {
    match (field_index(bfs, name), field_index(afs, name)) {
        (Some(bi), Some(ai)) => {
            let bf = bfs[bi];
            let af = afs[ai];
            match (effective_range(bf.constraints), effective_range(af.constraints)) {
                (Some(b), Some(a)) => (
                    Some(bounds_text(bf.ty, " "@, opt_float_text(b.0, rf), opt_float_text(b.1, rf))),
                    Some(bounds_text(af.ty, " "@, opt_float_text(a.0, rf), opt_float_text(a.1, rf))),
                ),
                _ => match (effective_length(bf.constraints), effective_length(af.constraints)) {
                    (Some(b), Some(a)) => (
                        Some(bounds_text(bf.ty, " length "@, opt_length_text(b.0), opt_length_text(b.1))),
                        Some(bounds_text(af.ty, " length "@, opt_length_text(a.0), opt_length_text(a.1))),
                    ),
                    _ => (None, None),
                },
            }
        },
        _ => (None, None),
    }
}

pub open spec fn or_else(a: Option<Seq<char>>, b: Option<Seq<char>>) -> Option<Seq<char>> {
    match a {
        Some(x) => Some(x),
        None => b,
    }
}

pub open spec fn finding(
    path: Seq<SegView>,
    level: CompatibilityLevel,
    reason: Seq<char>,
    previous: Option<Seq<char>>,
    new: Option<Seq<char>>,
    impact: Seq<char>,
    required_action: Option<Seq<char>>,
) -> FindingView {
    FindingView { path, level, reason, previous, new, impact, required_action }
}

/// The explained finding for one diff entry.
#[verifier::opaque]
pub open spec fn describe_spec(
    e: DiffView,
    bfs: Seq<FieldView>,
    afs: Seq<FieldView>,
    rf: spec_fn(u64) -> Seq<char>,
) -> FindingView {
    let level = classify(e);
    let name = field_name_at(e.path);
    let dbg = str_debug(name);
    match e.kind {
        DiffKind::FieldAdded => finding(
            e.path,
            level,
            "field "@ + dbg + " was added"@,
            None,
            e.after,
            if level == CompatibilityLevel::Breaking {
                "documents that satisfied the previous schema without this field will now fail structural validation (missing required field)."@
            } else {
                "documents that satisfied the previous schema without this field remain valid; the field is optional."@
            },
            required_action(level),
        ),
        DiffKind::FieldRemoved => finding(
            e.path,
            level,
            "field "@ + dbg + " was removed"@,
            e.before,
            None,
            "documents relying on this field will silently lose it under the new contract."@,
            required_action(level),
        ),
        DiffKind::TypeChanged => finding(
            e.path,
            level,
            "field "@ + dbg + " changed type"@,
            e.before,
            e.after,
            "values of the previous type are not accepted as the new type; documents with this field will fail structural validation."@,
            required_action(level),
        ),
        DiffKind::RequiredChanged => finding(
            e.path,
            level,
            "field "@ + dbg + " became "@ + if e.after == Some("true"@) {
                "required"@
            } else {
                "optional"@
            },
            e.before,
            e.after,
            if level == CompatibilityLevel::Breaking {
                "documents that omitted this optional field will now fail structural validation."@
            } else {
                "documents that included this field remain valid; it is no longer mandatory."@
            },
            required_action(level),
        ),
        DiffKind::ConstraintAdded => {
            let t = constraint_added_text(
                match e.after {
                    Some(a) => a,
                    None => Seq::empty(),
                },
                name,
            );
            finding(e.path, level, t.0, None, e.after, t.1, required_action(level))
        },
        DiffKind::ConstraintRemoved => finding(
            e.path,
            level,
            "a constraint was removed from field "@ + dbg,
            e.before,
            None,
            "removing a constraint only widens what is accepted; no previously-valid document is affected."@,
            None,
        ),
        DiffKind::ConstraintChanged => {
            let bound = if is_minimum_path(e.path) {
                "minimum"@
            } else {
                "maximum"@
            };
            let env = envelope_texts(name, bfs, afs, rf);
            finding(
                e.path,
                level,
                "field "@ + dbg + "'s "@ + bound + " bound changed"@,
                or_else(env.0, e.before),
                or_else(env.1, e.after),
                "existing values previously accepted at the "@ + bound + " bound may no longer be representable."@,
                required_action(level),
            )
        },
        DiffKind::DescriptionChanged => finding(
            e.path,
            level,
            "field "@ + dbg + "'s description changed"@,
            e.before,
            e.after,
            "cosmetic only; no effect on validation."@,
            None,
        ),
    }
}

fn field_name_of(path: &Path) -> (r: String)
    ensures
        r@ == field_name_at(path@),
{
    let segs = path.segments();
    proof {
        assert(segs@.len() == path@.len());
    }
    if segs.len() == 0 {
        return String::new();
    }
    proof {
        assert(path@[0] == segs@[0]@);
    }
    match &segs[0] {
        PathSegment::Field(name) => name.clone(),
        PathSegment::Index(_) => String::new(),
    }
}

fn cat2(a: &str, b: &str) -> (r: String)
    ensures
        r@ == a@ + b@,
{
    let mut r = String::new();
    push_str(&mut r, a);
    push_str(&mut r, b);
    r
}

fn cat3(a: &str, b: &str, c: &str) -> (r: String)
    ensures
        r@ == a@ + b@ + c@,
{
    let mut r = String::new();
    push_str(&mut r, a);
    push_str(&mut r, b);
    push_str(&mut r, c);
    proof {
        assert(r@ =~= a@ + b@ + c@);
    }
    r
}

fn constraint_added(after: &str, name: &str) -> (r: (String, String))
    ensures
        (r.0@, r.1@) == constraint_added_text(after@, name@),
{
    let dbg = debug_str(name);
    if chars_starts_with(after, "Custom(") {
        (cat2("a Custom constraint was added to field ", dbg.as_str()), "Custom constraints are inspectable but never evaluated by obserde-validate; no validate() outcome can change.".to_string())
    } else if str_eq(after, "Pattern(\"identifier\")") {
        (cat2("a Pattern(\"identifier\") constraint was added to field ", dbg.as_str()), "values not matching the identifier grammar, previously unconstrained, will now be rejected.".to_string())
    } else if chars_starts_with(after, "Pattern(") {
        let mut reason = cat3("a ", after, " constraint was added to field ");
        push_str(&mut reason, dbg.as_str());
        push_str(&mut reason, ", naming a grammar obserde-validate does not recognize");
        proof {
            assert(reason@ =~= "a "@ + after@ + " constraint was added to field "@ + str_debug(name@)
                + ", naming a grammar obserde-validate does not recognize"@);
        }
        (reason, "obserde-validate will return a hard ValidateError::InvalidPatternGrammar (not a rejected document) for any value present at this path, previously unconstrained.".to_string())
    } else if chars_starts_with(after, "NonEmpty") {
        (cat2("a NonEmpty constraint was added to field ", dbg.as_str()), "empty values, previously accepted, will now be rejected.".to_string())
    } else {
        let mut reason = cat3("a ", after, " constraint was added to field ");
        push_str(&mut reason, dbg.as_str());
        proof {
            assert(reason@ =~= "a "@ + after@ + " constraint was added to field "@ + str_debug(name@));
        }
        (reason, "values previously unconstrained on this dimension may now be rejected.".to_string())
    }
}

fn bounds_string(ty: &Type, infix: &str, lo: String, hi: String) -> (r: String)
    ensures
        r@ == bounds_text(*ty, infix@, lo@, hi@),
{
    let mut r = ty.to_string();
    push_str(&mut r, infix);
    push_str(&mut r, "[");
    push_str(&mut r, lo.as_str());
    push_str(&mut r, ", ");
    push_str(&mut r, hi.as_str());
    push_str(&mut r, "]");
    proof {
        assert(r@ =~= bounds_text(*ty, infix@, lo@, hi@));
    }
    r
}

fn envelope_strings<R: Fn(u64) -> String>(name: &str, before: &Schema, after: &Schema, render: &R) -> (r: (
    Option<String>,
    Option<String>,
))
    requires
        renders_floats(*render),
    ensures
        (opt_text(r.0), opt_text(r.1)) == envelope_texts(
            name@,
            before.fields_spec(),
            after.fields_spec(),
            |x: u64| rendered(*render, x),
        ),
{
    proof {
        lemma_field_index_found(before.fields_spec(), name@);
        lemma_field_index_found(after.fields_spec(), name@);
    }
    let (bf, af) = match (before.field(name), after.field(name)) {
        (Some(b), Some(a)) => (b, a),
        _ => return (None, None),
    };
    let br = effective_range_of(bf.constraints());
    let ar = effective_range_of(af.constraints());
    if let (Some(b), Some(a)) = (br, ar) {
        let p = bounds_string(bf.ty(), " ", opt_float_string(b.0, render), opt_float_string(b.1, render));
        let n = bounds_string(af.ty(), " ", opt_float_string(a.0, render), opt_float_string(a.1, render));
        return (Some(p), Some(n));
    }
    let bl = effective_length_of(bf.constraints());
    let al = effective_length_of(af.constraints());
    if let (Some(b), Some(a)) = (bl, al) {
        let p = bounds_string(bf.ty(), " length ", opt_length_string(b.0), opt_length_string(b.1));
        let n = bounds_string(af.ty(), " length ", opt_length_string(a.0), opt_length_string(a.1));
        return (Some(p), Some(n));
    }
    (None, None)
}

fn or_else_string(a: Option<String>, b: &Option<String>) -> (r: Option<String>)
    ensures
        opt_text(r) == or_else(opt_text(a), opt_text(*b)),
{
    match a {
        Some(x) => Some(x),
        None => clone_text(b),
    }
}

fn describe<R: Fn(u64) -> String>(entry: &DiffEntry, before: &Schema, after: &Schema, render: &R) -> (r:
    CompatibilityFinding)
    requires
        renders_floats(*render),
    ensures
        r@ == describe_spec(entry@, before.fields_spec(), after.fields_spec(), |x: u64| rendered(*render, x)),
{
    proof {
        reveal(describe_spec);
    }
    let level = classify_level(entry);
    let name = field_name_of(&entry.path);
    let dbg = debug_str(name.as_str());
    let path = entry.path.clone();
    match entry.kind {
        DiffKind::FieldAdded => {
            let f = CompatibilityFinding {
                path,
                level,
                reason: cat3("field ", dbg.as_str(), " was added"),
                previous: None,
                new: clone_text(&entry.after),
                impact: if level == CompatibilityLevel::Breaking {
                    "documents that satisfied the previous schema without this field will now fail structural validation (missing required field).".to_string()
                } else {
                    "documents that satisfied the previous schema without this field remain valid; the field is optional.".to_string()
                },
                required_action: required_action_for(level),
            };
            proof {
                let d = describe_spec(entry@, before.fields_spec(), after.fields_spec(), |x: u64| rendered(*render, x));
                assert(f@.path == d.path);
                assert(f@.level == d.level);
                assert(f@.reason == d.reason);
                assert(f@.previous == d.previous);
                assert(f@.new == d.new);
                assert(f@.impact == d.impact);
                assert(f@.required_action == d.required_action);
            }
            f
        },
        DiffKind::FieldRemoved => CompatibilityFinding {
            path,
            level,
            reason: cat3("field ", dbg.as_str(), " was removed"),
            previous: clone_text(&entry.before),
            new: None,
            impact: "documents relying on this field will silently lose it under the new contract.".to_string(),
            required_action: required_action_for(level),
        },
        DiffKind::TypeChanged => CompatibilityFinding {
            path,
            level,
            reason: cat3("field ", dbg.as_str(), " changed type"),
            previous: clone_text(&entry.before),
            new: clone_text(&entry.after),
            impact: "values of the previous type are not accepted as the new type; documents with this field will fail structural validation.".to_string(),
            required_action: required_action_for(level),
        },
        DiffKind::RequiredChanged => {
            let became_required = match &entry.after {
                Some(t) => str_eq(t.as_str(), "true"),
                None => false,
            };
            let mut reason = cat3("field ", dbg.as_str(), " became ");
            push_str(&mut reason, if became_required { "required" } else { "optional" });
            proof {
                assert(reason@ =~= "field "@ + str_debug(name@) + " became "@ + if entry@.after == Some("true"@) {
                    "required"@
                } else {
                    "optional"@
                });
            }
            CompatibilityFinding {
                path,
                level,
                reason,
                previous: clone_text(&entry.before),
                new: clone_text(&entry.after),
                impact: if level == CompatibilityLevel::Breaking {
                    "documents that omitted this optional field will now fail structural validation.".to_string()
                } else {
                    "documents that included this field remain valid; it is no longer mandatory.".to_string()
                },
                required_action: required_action_for(level),
            }
        },
        DiffKind::ConstraintAdded => {
            let a: &str = match &entry.after {
                Some(t) => t.as_str(),
                None => "",
            };
            proof {
                reveal_strlit("");
                assert(a@ == (match entry@.after {
                    Some(x) => x,
                    None => Seq::<char>::empty(),
                }));
            }
            let (reason, impact) = constraint_added(a, name.as_str());
            CompatibilityFinding {
                path,
                level,
                reason,
                previous: None,
                new: clone_text(&entry.after),
                impact,
                required_action: required_action_for(level),
            }
        },
        DiffKind::ConstraintRemoved => CompatibilityFinding {
            path,
            level,
            reason: cat2("a constraint was removed from field ", dbg.as_str()),
            previous: clone_text(&entry.before),
            new: None,
            impact: "removing a constraint only widens what is accepted; no previously-valid document is affected.".to_string(),
            required_action: None,
        },
        DiffKind::ConstraintChanged => {
            let bound = if is_minimum(&entry.path) {
                "minimum"
            } else {
                "maximum"
            };
            let (p, n) = envelope_strings(name.as_str(), before, after, render);
            let mut reason = cat3("field ", dbg.as_str(), "'s ");
            push_str(&mut reason, bound);
            push_str(&mut reason, " bound changed");
            let impact = cat3("existing values previously accepted at the ", bound, " bound may no longer be representable.");
            proof {
                assert(reason@ =~= "field "@ + str_debug(name@) + "'s "@ + bound@ + " bound changed"@);
            }
            CompatibilityFinding {
                path,
                level,
                reason,
                previous: or_else_string(p, &entry.before),
                new: or_else_string(n, &entry.after),
                impact,
                required_action: required_action_for(level),
            }
        },
        DiffKind::DescriptionChanged => CompatibilityFinding {
            path,
            level,
            reason: cat3("field ", dbg.as_str(), "'s description changed"),
            previous: clone_text(&entry.before),
            new: clone_text(&entry.after),
            impact: "cosmetic only; no effect on validation.".to_string(),
            required_action: None,
        },
    }
}

/// The aggregate of finding levels: the most severe by `rank`, the later
/// one on a tie, and `Identical` for none.
pub open spec fn aggregate(levels: Seq<CompatibilityLevel>) -> CompatibilityLevel
    decreases levels.len(),
{
    if levels.len() == 0 {
        CompatibilityLevel::Identical
    } else if levels.len() == 1 {
        levels[0]
    } else {
        let prev = aggregate(levels.drop_last());
        if rank(levels.last()) >= rank(prev) {
            levels.last()
        } else {
            prev
        }
    }
}

pub open spec fn finding_views(v: Seq<CompatibilityFinding>) -> Seq<FindingView> {
    v.map_values(|f: CompatibilityFinding| f@)
}

/// The findings of a diff: one explained finding per entry, in order.
pub open spec fn findings_spec(
    es: Seq<DiffView>,
    bfs: Seq<FieldView>,
    afs: Seq<FieldView>,
    rf: spec_fn(u64) -> Seq<char>,
) -> Seq<FindingView> {
    es.map_values(|e: DiffView| describe_spec(e, bfs, afs, rf))
}

/// The level of a report: `Identical` for an empty diff, else the
/// aggregate of the findings' levels.
pub open spec fn report_level(es: Seq<DiffView>, fs: Seq<FindingView>) -> CompatibilityLevel {
    if es.len() == 0 {
        CompatibilityLevel::Identical
    } else {
        aggregate(fs.map_values(|f: FindingView| f.level))
    }
}

/// The full compatibility analysis between two schemas: an aggregate level,
/// the underlying diff, and one finding per diff entry.
#[derive(Debug, PartialEq)]
pub struct CompatibilityReport {
    pub level: CompatibilityLevel,
    diff: SchemaDiff,
    findings: Vec<CompatibilityFinding>,
}

impl CompatibilityReport {
    pub closed spec fn diff_view(&self) -> Seq<DiffView> {
        self.diff@
    }

    pub closed spec fn level_spec(&self) -> CompatibilityLevel {
        self.level
    }

    /// The report's level: the value of its public field `level`, which
    /// contracts outside this module cannot name.
    pub fn level(&self) -> (r: CompatibilityLevel)
        ensures
            r == self.level_spec(),
    {
        self.level
    }

    pub closed spec fn findings_view(&self) -> Seq<FindingView> {
        finding_views(self.findings@)
    }

    pub fn diff(&self) -> (r: &SchemaDiff)
        ensures
            r@ == self.diff_view(),
    {
        &self.diff
    }

    pub fn findings(&self) -> (r: &[CompatibilityFinding])
        ensures
            finding_views(r@) == self.findings_view(),
    {
        self.findings.as_slice()
    }

    /// Identical or compatible.
    pub fn is_compatible(&self) -> (r: bool)
        ensures
            r == (self.level_spec() == CompatibilityLevel::Identical || self.level_spec()
                == CompatibilityLevel::Compatible),
    {
        match self.level {
            CompatibilityLevel::Identical | CompatibilityLevel::Compatible => true,
            _ => false,
        }
    }
}

/// Computes the diff from `before` to `after`, classifies and explains
/// every entry, and aggregates the result.
pub fn analyze<R: Fn(u64) -> String>(before: &Schema, after: &Schema, render: &R) -> (r: CompatibilityReport)
    requires
        renders_floats(*render),
    ensures
        r.diff_view() == diff_spec(before.fields_spec(), after.fields_spec(), |x: u64| rendered(*render, x)),
        r.findings_view() == findings_spec(
            r.diff_view(),
            before.fields_spec(),
            after.fields_spec(),
            |x: u64| rendered(*render, x),
        ),
        r.level_spec() == report_level(r.diff_view(), r.findings_view()),
{
    let ghost rf = |x: u64| rendered(*render, x);
    let schema_diff = diff(before, after, render);
    let entries = schema_diff.entries();
    let ghost ev = schema_diff@;
    let mut findings: Vec<CompatibilityFinding> = Vec::new();
    let mut level = CompatibilityLevel::Identical;
    let mut i: usize = 0;
    while i < entries.len()
        invariant
            i <= entries@.len(),
            ev == diff_views(entries@),
            renders_floats(*render),
            rf == (|x: u64| rendered(*render, x)),
            finding_views(findings@) == findings_spec(ev.take(i as int), before.fields_spec(), after.fields_spec(), rf),
            level == aggregate(finding_views(findings@).map_values(|f: FindingView| f.level)),
        decreases entries@.len() - i,
    {
        let f = describe(&entries[i], before, after, render);
        let ghost prev_views = finding_views(findings@);
        let l = f.level;
        if i == 0 || severity_rank(l) >= severity_rank(level) {
            level = l;
        }
        findings.push(f);
        proof {
            assert(ev[i as int] == entries@[i as int]@);
            assert(finding_views(findings@) =~= prev_views.push(f@));
            assert(ev.take(i as int + 1) =~= ev.take(i as int).push(ev[i as int]));
            assert(findings_spec(ev.take(i as int + 1), before.fields_spec(), after.fields_spec(), rf)
                =~= findings_spec(ev.take(i as int), before.fields_spec(), after.fields_spec(), rf).push(f@));
            let ls = finding_views(findings@).map_values(|g: FindingView| g.level);
            assert(ls.drop_last() =~= prev_views.map_values(|g: FindingView| g.level));
        }
        i = i + 1;
    }
    proof {
        assert(ev.take(ev.len() as int) =~= ev);
    }
    let level = if schema_diff.is_identical() {
        CompatibilityLevel::Identical
    } else {
        level
    };
    CompatibilityReport { level, diff: schema_diff, findings }
}

pub open spec fn level_text(level: CompatibilityLevel) -> Seq<char> {
    match level {
        CompatibilityLevel::Identical => "IDENTICAL"@,
        CompatibilityLevel::Compatible => "COMPATIBLE"@,
        CompatibilityLevel::ConditionallyCompatible => "CONDITIONALLY COMPATIBLE"@,
        CompatibilityLevel::Unknown => "UNKNOWN"@,
        CompatibilityLevel::Breaking => "BREAKING"@,
    }
}

pub fn level_word(level: CompatibilityLevel) -> (r: &'static str)
    ensures
        r@ == level_text(level),
{
    match level {
        CompatibilityLevel::Identical => "IDENTICAL",
        CompatibilityLevel::Compatible => "COMPATIBLE",
        CompatibilityLevel::ConditionallyCompatible => "CONDITIONALLY COMPATIBLE",
        CompatibilityLevel::Unknown => "UNKNOWN",
        CompatibilityLevel::Breaking => "BREAKING",
    }
}

/// The labelled block of an optional section: `label\n  value\n`.
pub open spec fn labelled(label: Seq<char>, v: Option<Seq<char>>) -> Seq<char> {
    match v {
        Some(x) => label + "\n  "@ + x + "\n"@,
        None => Seq::empty(),
    }
}

/// One finding's text: a full block for breaking and unknown findings, a
/// single line otherwise.
pub open spec fn finding_text(f: FindingView) -> Seq<char> {
    if f.level == CompatibilityLevel::Breaking || f.level == CompatibilityLevel::Unknown {
        "\nReason:\n  "@ + path_text(f.path) + "\n  "@ + f.reason + "\n"@ + labelled("Previous:"@, f.previous)
            + labelled("New:"@, f.new) + "Impact:\n  "@ + f.impact + "\n"@ + labelled("Required action:"@, f.required_action)
    } else {
        "  "@ + path_text(f.path) + " — "@ + f.reason + "\n"@
    }
}

pub open spec fn findings_text(fs: Seq<FindingView>) -> Seq<char>
    decreases fs.len(),
{
    if fs.len() == 0 {
        Seq::empty()
    } else {
        findings_text(fs.drop_last()) + finding_text(fs.last())
    }
}

fn push_labelled(s: &mut String, label: &str, v: &Option<String>)
    ensures
        final(s)@ == old(s)@ + labelled(label@, opt_text(*v)),
{
    if let Some(x) = v {
        push_str(s, label);
        push_str(s, "\n  ");
        push_str(s, x.as_str());
        push_str(s, "\n");
    }
    proof {
        assert(final(s)@ =~= old(s)@ + labelled(label@, opt_text(*v)));
    }
}

#[verifier::rlimit(40)]
fn push_finding(s: &mut String, f: &CompatibilityFinding)
    ensures
        final(s)@ == old(s)@ + finding_text(f@),
{
    match f.level {
        CompatibilityLevel::Breaking | CompatibilityLevel::Unknown => {
            push_str(s, "\nReason:\n  ");
            push_str(s, f.path.to_string().as_str());
            push_str(s, "\n  ");
            push_str(s, f.reason.as_str());
            push_str(s, "\n");
            push_labelled(s, "Previous:", &f.previous);
            push_labelled(s, "New:", &f.new);
            push_str(s, "Impact:\n  ");
            push_str(s, f.impact.as_str());
            push_str(s, "\n");
            push_labelled(s, "Required action:", &f.required_action);
        },
        _ => {
            push_str(s, "  ");
            push_str(s, f.path.to_string().as_str());
            push_str(s, " — ");
            push_str(s, f.reason.as_str());
            push_str(s, "\n");
        },
    }
    proof {
        assert(final(s)@ =~= old(s)@ + finding_text(f@));
    }
}

impl CompatibilityReport {
    /// The text of the report, as it is shown to users: the level word,
    /// then each finding.
    pub fn to_string(&self) -> (r: String)
        ensures
            r@ == level_text(self.level_spec()) + "\n"@ + findings_text(self.findings_view()),
    {
        let mut s = String::new();
        push_str(&mut s, level_word(self.level));
        push_str(&mut s, "\n");
        let ghost head = s@;
        let ghost fv = self.findings_view();
        let mut i: usize = 0;
        while i < self.findings.len()
            invariant
                i <= self.findings@.len(),
                fv == finding_views(self.findings@),
                s@ == head + findings_text(fv.take(i as int)),
            decreases self.findings@.len() - i,
        {
            let f = &self.findings[i];
            let ghost before = s@;
            push_finding(&mut s, f);
            proof {
                assert(fv[i as int] == f@);
                assert(s@ =~= before + finding_text(f@));
                assert(fv.take(i as int + 1).drop_last() =~= fv.take(i as int));
            }
            i = i + 1;
        }
        proof {
            assert(fv.take(fv.len() as int) =~= fv);
        }
        s
    }
}

pub proof fn lemma_types_equal_reflexive(t: Type)
    ensures
        types_equal_ignoring_map_keys(t, t),
    decreases t,
{
    match t {
        Type::List(e) => lemma_types_equal_reflexive(*e),
        Type::Mapping(_, v) => lemma_types_equal_reflexive(*v),
        _ => {},
    }
}

proof fn lemma_set_minus_self<T>(a: Seq<T>)
    ensures
        set_minus(a, a) == Seq::<T>::empty(),
{
    let pred = |x: T| !a.contains(x);
    assert forall|k: int| 0 <= k <= a.len() implies #[trigger] a.take(k).filter(pred) == Seq::<T>::empty() by {
        lemma_filter_none(a, k, pred);
    }
    assert(a.take(a.len() as int) =~= a);
}

proof fn lemma_filter_none<T>(a: Seq<T>, k: int, pred: spec_fn(T) -> bool)
    requires
        0 <= k <= a.len(),
        pred == (|x: T| !a.contains(x)),
    ensures
        a.take(k).filter(pred) == Seq::<T>::empty(),
    decreases k,
{
    reveal(Seq::filter);
    if k > 0 {
        lemma_filter_none(a, k - 1, pred);
        lemma_filter_step(a, k - 1, pred);
        assert(a.contains(a[k - 1]));
    } else {
        assert(a.take(0) =~= Seq::<T>::empty());
    }
}

/// A field compared with itself has no differences, when none of its range
/// bounds is a NaN.
pub proof fn lemma_field_diff_self(f: FieldView, path: Seq<SegView>, rf: spec_fn(u64) -> Seq<char>)
    ensures
        field_diff(f, f, path, rf) == Seq::<DiffView>::empty(),
{
    reveal(field_diff);
    reveal(range_part);
    reveal(length_part);
    reveal(non_empty_part);
    reveal(pattern_part);
    reveal(custom_part);
    lemma_types_equal_reflexive(f.ty);
    lemma_set_minus_self(pattern_grammars(f.constraints));
    lemma_set_minus_self(custom_constraints(f.constraints));
    assert(range_part(f.constraints, f.constraints, path, rf) =~= Seq::<DiffView>::empty());
    assert(length_part(f.constraints, f.constraints, path) =~= Seq::<DiffView>::empty());
    assert(pattern_part(f.constraints, f.constraints, path) =~= Seq::<DiffView>::empty());
    assert(custom_part(f.constraints, f.constraints, path) =~= Seq::<DiffView>::empty());
    assert(field_diff(f, f, path, rf) =~= Seq::<DiffView>::empty());
}

/// A list of fields with distinct names compared with itself has an empty
/// diff.
proof fn lemma_diff_self(fs: Seq<FieldView>, rf: spec_fn(u64) -> Seq<char>)
    requires
        names_distinct(field_names(fs)),
    ensures
        diff_spec(fs, fs, rf) == Seq::<DiffView>::empty(),
{
    assert forall|n: nat| n <= fs.len() implies #[trigger] added_or_changed(fs, fs, n, rf) == Seq::<DiffView>::empty() by {
        lemma_added_self(fs, n, rf);
    }
    assert forall|n: nat| n <= fs.len() implies #[trigger] removed(fs, fs, n) == Seq::<DiffView>::empty() by {
        lemma_removed_self(fs, n);
    }
    assert(diff_spec(fs, fs, rf) =~= Seq::<DiffView>::empty());
}

proof fn lemma_index_self(fs: Seq<FieldView>, k: int)
    requires
        names_distinct(field_names(fs)),
        0 <= k < fs.len(),
    ensures
        field_index(fs, fs[k].name) == Some(k),
{
    assert forall|j: int| 0 <= j < k implies fs[j].name != fs[k].name by {
        assert(field_names(fs)[j] == fs[j].name);
        assert(field_names(fs)[k] == fs[k].name);
    }
    lemma_field_index(fs, fs[k].name, k);
}

proof fn lemma_added_self(fs: Seq<FieldView>, n: nat, rf: spec_fn(u64) -> Seq<char>)
    requires
        names_distinct(field_names(fs)),
        n <= fs.len(),
    ensures
        added_or_changed(fs, fs, n, rf) == Seq::<DiffView>::empty(),
    decreases n,
{
    if n > 0 {
        lemma_added_self(fs, (n - 1) as nat, rf);
        lemma_index_self(fs, n - 1);
        lemma_field_diff_self(fs[n - 1], seq![SegView::Field(fs[n - 1].name)], rf);
        assert(added_or_changed(fs, fs, n, rf) =~= Seq::<DiffView>::empty());
    }
}

proof fn lemma_removed_self(fs: Seq<FieldView>, n: nat)
    requires
        names_distinct(field_names(fs)),
        n <= fs.len(),
    ensures
        removed(fs, fs, n) == Seq::<DiffView>::empty(),
    decreases n,
{
    if n > 0 {
        lemma_removed_self(fs, (n - 1) as nat);
        lemma_index_self(fs, n - 1);
        assert(removed(fs, fs, n) =~= Seq::<DiffView>::empty());
    }
}

/// Law (diff is reflexive): every schema compared with itself has an
/// empty diff, whatever its range bounds (a NaN bound is unchanged from
/// itself).
pub proof fn law_diff_reflexive(s: Schema, rf: spec_fn(u64) -> Seq<char>)
    requires
        s.wf(),
    ensures
        diff_spec(s.fields_spec(), s.fields_spec(), rf) == Seq::<DiffView>::empty(),
{
    lemma_diff_self(s.fields_spec(), rf);
}

/// Law: analysing any schema against itself reports `Identical`.
pub proof fn law_analyze_reflexive(s: Schema, rf: spec_fn(u64) -> Seq<char>)
    requires
        s.wf(),
    ensures
        report_level(
            diff_spec(s.fields_spec(), s.fields_spec(), rf),
            findings_spec(diff_spec(s.fields_spec(), s.fields_spec(), rf), s.fields_spec(), s.fields_spec(), rf),
        ) == CompatibilityLevel::Identical,
{
    lemma_diff_self(s.fields_spec(), rf);
}

/// A finding keeps its entry's path and carries its entry's
/// classification.
proof fn lemma_describe_parts(e: DiffView, bfs: Seq<FieldView>, afs: Seq<FieldView>, rf: spec_fn(u64) -> Seq<char>)
    ensures
        describe_spec(e, bfs, afs, rf).path == e.path,
        describe_spec(e, bfs, afs, rf).level == classify(e),
{
    reveal(describe_spec);
}

/// Levels that are each `Compatible` or `Breaking` aggregate to `Breaking`
/// exactly when one of them is, and to `Compatible` otherwise.
proof fn lemma_aggregate_two_levels(levels: Seq<CompatibilityLevel>)
    requires
        levels.len() > 0,
        forall|i: int|
            0 <= i < levels.len() ==> #[trigger] levels[i] == CompatibilityLevel::Compatible || levels[i]
                == CompatibilityLevel::Breaking,
    ensures
        aggregate(levels) == CompatibilityLevel::Breaking <==> exists|i: int|
            0 <= i < levels.len() && #[trigger] levels[i] == CompatibilityLevel::Breaking,
        aggregate(levels) == CompatibilityLevel::Compatible || aggregate(levels) == CompatibilityLevel::Breaking,
    decreases levels.len(),
{
    if levels.len() > 1 {
        let init = levels.drop_last();
        assert forall|i: int| 0 <= i < init.len() implies #[trigger] init[i] == CompatibilityLevel::Compatible
            || init[i] == CompatibilityLevel::Breaking by {
            assert(init[i] == levels[i]);
        }
        lemma_aggregate_two_levels(init);
        if exists|i: int| 0 <= i < init.len() && #[trigger] init[i] == CompatibilityLevel::Breaking {
            let i = choose|i: int| 0 <= i < init.len() && #[trigger] init[i] == CompatibilityLevel::Breaking;
            assert(levels[i] == CompatibilityLevel::Breaking);
        }
        if exists|i: int| 0 <= i < levels.len() && #[trigger] levels[i] == CompatibilityLevel::Breaking {
            let i = choose|i: int| 0 <= i < levels.len() && #[trigger] levels[i] == CompatibilityLevel::Breaking;
            if i < init.len() {
                assert(init[i] == CompatibilityLevel::Breaking);
            }
        }
    } else {
        assert(levels[0] == levels[0]);
    }
}

/// Law: `analyze` gives one finding per diff entry, in order, each at its
/// entry's path and classified by the entry alone, as `Compatible` or
/// `Breaking`. The report is `Identical` exactly when the diff is empty;
/// otherwise it is `Breaking` when some finding is and `Compatible` when
/// none is, so a report is compatible exactly when no finding breaks.
pub proof fn law_analyze_findings(
    es: Seq<DiffView>,
    bfs: Seq<FieldView>,
    afs: Seq<FieldView>,
    rf: spec_fn(u64) -> Seq<char>,
)
    ensures
        findings_spec(es, bfs, afs, rf).len() == es.len(),
        forall|i: int|
            0 <= i < es.len() ==> (#[trigger] findings_spec(es, bfs, afs, rf)[i]).path == es[i].path
                && findings_spec(es, bfs, afs, rf)[i].level == classify(es[i]),
        forall|i: int|
            0 <= i < es.len() ==> (#[trigger] findings_spec(es, bfs, afs, rf)[i]).level
                == CompatibilityLevel::Compatible || findings_spec(es, bfs, afs, rf)[i].level
                == CompatibilityLevel::Breaking,
        report_level(es, findings_spec(es, bfs, afs, rf)) == CompatibilityLevel::Identical <==> es.len() == 0,
        es.len() > 0 ==> (report_level(es, findings_spec(es, bfs, afs, rf)) == CompatibilityLevel::Breaking
            <==> exists|i: int|
            0 <= i < es.len() && (#[trigger] findings_spec(es, bfs, afs, rf)[i]).level
                == CompatibilityLevel::Breaking),
        es.len() > 0 ==> (report_level(es, findings_spec(es, bfs, afs, rf)) == CompatibilityLevel::Compatible
            <==> forall|i: int|
            0 <= i < es.len() ==> (#[trigger] findings_spec(es, bfs, afs, rf)[i]).level
                != CompatibilityLevel::Breaking),
        (report_level(es, findings_spec(es, bfs, afs, rf)) == CompatibilityLevel::Identical || report_level(
            es,
            findings_spec(es, bfs, afs, rf),
        ) == CompatibilityLevel::Compatible) <==> forall|i: int|
            0 <= i < es.len() ==> (#[trigger] findings_spec(es, bfs, afs, rf)[i]).level
                != CompatibilityLevel::Breaking,
{
    let fs = findings_spec(es, bfs, afs, rf);
    assert forall|i: int| 0 <= i < es.len() implies (#[trigger] fs[i]).path == es[i].path && fs[i].level == classify(
        es[i],
    ) by {
        lemma_describe_parts(es[i], bfs, afs, rf);
    }
    assert forall|i: int| 0 <= i < es.len() implies (#[trigger] fs[i]).level == CompatibilityLevel::Compatible
        || fs[i].level == CompatibilityLevel::Breaking by {
        lemma_describe_parts(es[i], bfs, afs, rf);
    }
    if es.len() > 0 {
        let levels = fs.map_values(|f: FindingView| f.level);
        assert forall|i: int| 0 <= i < levels.len() implies #[trigger] levels[i] == CompatibilityLevel::Compatible
            || levels[i] == CompatibilityLevel::Breaking by {
            assert(levels[i] == fs[i].level);
        }
        lemma_aggregate_two_levels(levels);
        if exists|i: int| 0 <= i < levels.len() && #[trigger] levels[i] == CompatibilityLevel::Breaking {
            let i = choose|i: int| 0 <= i < levels.len() && #[trigger] levels[i] == CompatibilityLevel::Breaking;
            assert(fs[i].level == CompatibilityLevel::Breaking);
        }
        if exists|i: int| 0 <= i < es.len() && (#[trigger] fs[i]).level == CompatibilityLevel::Breaking {
            let i = choose|i: int| 0 <= i < es.len() && (#[trigger] fs[i]).level == CompatibilityLevel::Breaking;
            assert(levels[i] == CompatibilityLevel::Breaking);
        }
    }
}

/// Law: an entry is classified `Breaking` exactly when it removes a field,
/// changes a type, adds a required field, makes a field required, adds a
/// constraint other than a `Custom` one, or narrows a bound (a `minimum`
/// raised, a `maximum` lowered); every other entry is `Compatible`.
pub proof fn law_classify_rule(e: DiffView)
    ensures
        classify(e) == CompatibilityLevel::Compatible || classify(e) == CompatibilityLevel::Breaking,
        classify(e) == CompatibilityLevel::Breaking <==> {
            ||| e.kind == DiffKind::FieldRemoved
            ||| e.kind == DiffKind::TypeChanged
            ||| e.kind == DiffKind::FieldAdded && (e.after matches Some(t) && ends_with(t, "(required)"@))
            ||| e.kind == DiffKind::RequiredChanged && e.after == Some("true"@)
            ||| e.kind == DiffKind::ConstraintAdded && !(e.after matches Some(t) && starts_with(t, "Custom("@))
            ||| e.kind == DiffKind::ConstraintChanged && (e.bounds matches Some(ba) && if is_minimum_path(e.path) {
                f64_lt(ba.0, ba.1)
            } else {
                f64_lt(ba.1, ba.0)
            })
        },
{
}

/// Two fields alike in all but the key types of map types, anywhere in
/// their types.
pub open spec fn alike_but_map_keys(b: FieldView, a: FieldView) -> bool {
    &&& b.name == a.name
    &&& types_equal_ignoring_map_keys(b.ty, a.ty)
    &&& b.required == a.required
    &&& b.constraints == a.constraints
    &&& b.description == a.description
}

proof fn lemma_field_diff_alike(b: FieldView, a: FieldView, path: Seq<SegView>, rf: spec_fn(u64) -> Seq<char>)
    requires
        alike_but_map_keys(b, a),
    ensures
        field_diff(b, a, path, rf) == Seq::<DiffView>::empty(),
{
    lemma_field_diff_self(b, path, rf);
    reveal(field_diff);
    assert(field_diff(b, a, path, rf) =~= field_diff(b, b, path, rf));
}

proof fn lemma_added_alike(bfs: Seq<FieldView>, afs: Seq<FieldView>, n: nat, rf: spec_fn(u64) -> Seq<char>)
    requires
        n <= afs.len(),
        forall|k: int|
            0 <= k < afs.len() ==> (#[trigger] field_index(bfs, afs[k].name)) is Some && alike_but_map_keys(
                bfs[field_index(bfs, afs[k].name)->0],
                afs[k],
            ),
    ensures
        added_or_changed(bfs, afs, n, rf) == Seq::<DiffView>::empty(),
    decreases n,
{
    if n > 0 {
        lemma_added_alike(bfs, afs, (n - 1) as nat, rf);
        let f = afs[n - 1];
        assert(field_index(bfs, f.name) is Some);
        let i = field_index(bfs, f.name)->0;
        lemma_field_index_found(bfs, f.name);
        lemma_field_diff_alike(bfs[i], f, seq![SegView::Field(f.name)], rf);
        assert(added_or_changed(bfs, afs, n, rf) =~= Seq::<DiffView>::empty());
    }
}

proof fn lemma_removed_none(bfs: Seq<FieldView>, afs: Seq<FieldView>, n: nat)
    requires
        n <= bfs.len(),
        forall|k: int| 0 <= k < bfs.len() ==> (#[trigger] field_index(afs, bfs[k].name)) is Some,
    ensures
        removed(bfs, afs, n) == Seq::<DiffView>::empty(),
    decreases n,
{
    if n > 0 {
        lemma_removed_none(bfs, afs, (n - 1) as nat);
        assert(field_index(afs, bfs[n - 1].name) is Some);
        assert(removed(bfs, afs, n) =~= Seq::<DiffView>::empty());
    }
}

/// Law: the diff sees neither the order of fields nor the key types of
/// map types. Two schemas with the same field names, whose same-named
/// fields are alike but for map key types anywhere in their types, have an
/// empty diff, given no NaN range bound.
pub proof fn law_diff_ignores_map_keys(bfs: Seq<FieldView>, afs: Seq<FieldView>, rf: spec_fn(u64) -> Seq<char>)
    requires
        forall|k: int|
            0 <= k < afs.len() ==> (#[trigger] field_index(bfs, afs[k].name)) is Some && alike_but_map_keys(
                bfs[field_index(bfs, afs[k].name)->0],
                afs[k],
            ),
        forall|k: int| 0 <= k < bfs.len() ==> (#[trigger] field_index(afs, bfs[k].name)) is Some,
    ensures
        diff_spec(bfs, afs, rf) == Seq::<DiffView>::empty(),
{
    lemma_added_alike(bfs, afs, afs.len(), rf);
    lemma_removed_none(bfs, afs, bfs.len());
    assert(diff_spec(bfs, afs, rf) =~= Seq::<DiffView>::empty());
}

/// Every entry's path is `path` itself or its `minimum` or `maximum` bound.
pub open spec fn entries_at(es: Seq<DiffView>, path: Seq<SegView>) -> bool {
    forall|i: int|
        0 <= i < es.len() ==> (#[trigger] es[i]).path == path || es[i].path == minimum_path(path) || es[i].path
            == maximum_path(path)
}

proof fn lemma_entries_at_concat(a: Seq<DiffView>, b: Seq<DiffView>, path: Seq<SegView>)
    requires
        entries_at(a, path),
        entries_at(b, path),
    ensures
        entries_at(a + b, path),
{
    assert forall|i: int| 0 <= i < (a + b).len() implies (#[trigger] (a + b)[i]).path == path || (a + b)[i].path
        == minimum_path(path) || (a + b)[i].path == maximum_path(path) by {
        if i < a.len() {
            assert((a + b)[i] == a[i]);
        } else {
            assert((a + b)[i] == b[i - a.len()]);
        }
    }
}

/// Law: every change entry of a field lies at the field's path or at its
/// `minimum` or `maximum` bound below it, so under the field's path.
pub proof fn law_field_changes_under_path(
    b: FieldView,
    a: FieldView,
    path: Seq<SegView>,
    rf: spec_fn(u64) -> Seq<char>,
)
    ensures
        entries_at(field_diff(b, a, path, rf), path),
        forall|i: int|
            0 <= i < field_diff(b, a, path, rf).len() ==> path.is_prefix_of(
                (#[trigger] field_diff(b, a, path, rf)[i]).path,
            ),
{
    reveal(field_diff);
    reveal(range_part);
    reveal(length_part);
    reveal(non_empty_part);
    reveal(pattern_part);
    reveal(custom_part);
    let t = if !types_equal_ignoring_map_keys(b.ty, a.ty) {
        seq![entry(path, DiffKind::TypeChanged, Some(type_text(b.ty)), Some(type_text(a.ty)), None)]
    } else {
        Seq::empty()
    };
    let q = if b.required != a.required {
        seq![entry(path, DiffKind::RequiredChanged, Some(bool_text(b.required)), Some(bool_text(a.required)), None)]
    } else {
        Seq::empty()
    };
    let r = range_part(b.constraints, a.constraints, path, rf);
    let l = length_part(b.constraints, a.constraints, path);
    let n = non_empty_part(b.constraints, a.constraints, path);
    let pp = pattern_part(b.constraints, a.constraints, path);
    let c = custom_part(b.constraints, a.constraints, path);
    let d = if b.description != a.description {
        seq![entry(path, DiffKind::DescriptionChanged, b.description, a.description, None)]
    } else {
        Seq::empty()
    };
    assert(entries_at(t, path));
    assert(entries_at(q, path));
    assert(entries_at(r, path));
    assert(entries_at(l, path));
    assert(entries_at(n, path));
    assert(entries_at(pp, path));
    assert(entries_at(c, path));
    assert(entries_at(d, path));
    lemma_entries_at_concat(t, q, path);
    lemma_entries_at_concat(t + q, r, path);
    lemma_entries_at_concat(t + q + r, l, path);
    lemma_entries_at_concat(t + q + r + l, n, path);
    lemma_entries_at_concat(t + q + r + l + n, pp, path);
    lemma_entries_at_concat(t + q + r + l + n + pp, c, path);
    lemma_entries_at_concat(t + q + r + l + n + pp + c, d, path);
    assert(field_diff(b, a, path, rf) == t + q + r + l + n + pp + c + d);
    let fd = field_diff(b, a, path, rf);
    assert forall|i: int| 0 <= i < fd.len() implies path.is_prefix_of((#[trigger] fd[i]).path) by {
        if fd[i].path == minimum_path(path) {
            assert(minimum_path(path).take(path.len() as int) =~= path);
        } else if fd[i].path == maximum_path(path) {
            assert(maximum_path(path).take(path.len() as int) =~= path);
        } else {
            assert(path.take(path.len() as int) =~= path);
        }
    }
}

/// A field with no change entries has an equal type (up to map key
/// types), required flag and description.
proof fn lemma_field_diff_empty(b: FieldView, a: FieldView, path: Seq<SegView>, rf: spec_fn(u64) -> Seq<char>)
    requires
        field_diff(b, a, path, rf).len() == 0,
    ensures
        types_equal_ignoring_map_keys(b.ty, a.ty),
        b.required == a.required,
        b.description == a.description,
{
    reveal(field_diff);
}

proof fn lemma_added_empty(bfs: Seq<FieldView>, afs: Seq<FieldView>, n: nat, rf: spec_fn(u64) -> Seq<char>)
    requires
        n <= afs.len(),
        added_or_changed(bfs, afs, n, rf).len() == 0,
    ensures
        forall|k: int|
            0 <= k < n ==> ((#[trigger] field_index(bfs, afs[k].name)) matches Some(i) && types_equal_ignoring_map_keys(
                bfs[i].ty,
                afs[k].ty,
            ) && bfs[i].required == afs[k].required && bfs[i].description == afs[k].description),
    decreases n,
{
    if n > 0 {
        let f = afs[n - 1];
        lemma_added_empty(bfs, afs, (n - 1) as nat, rf);
        if let Some(i) = field_index(bfs, f.name) {
            lemma_field_diff_empty(bfs[i], f, seq![SegView::Field(f.name)], rf);
        }
    }
}

proof fn lemma_removed_empty(bfs: Seq<FieldView>, afs: Seq<FieldView>, n: nat)
    requires
        n <= bfs.len(),
        removed(bfs, afs, n).len() == 0,
    ensures
        forall|k: int| 0 <= k < n ==> (#[trigger] field_index(afs, bfs[k].name)) is Some,
    decreases n,
{
    if n > 0 {
        lemma_removed_empty(bfs, afs, (n - 1) as nat);
    }
}

/// Law: an empty diff means the two schemas declare the same field names,
/// and each field of the newer one has, in the older one, a type equal up
/// to map key types, the same required flag and the same description.
pub proof fn law_empty_diff_same_fields(bfs: Seq<FieldView>, afs: Seq<FieldView>, rf: spec_fn(u64) -> Seq<char>)
    requires
        diff_spec(bfs, afs, rf).len() == 0,
    ensures
        forall|k: int|
            0 <= k < afs.len() ==> ((#[trigger] field_index(bfs, afs[k].name)) matches Some(i) && types_equal_ignoring_map_keys(
                bfs[i].ty,
                afs[k].ty,
            ) && bfs[i].required == afs[k].required && bfs[i].description == afs[k].description),
        forall|k: int| 0 <= k < bfs.len() ==> (#[trigger] field_index(afs, bfs[k].name)) is Some,
{
    lemma_added_empty(bfs, afs, afs.len(), rf);
    lemma_removed_empty(bfs, afs, bfs.len());
}


/// The entries of one shared field's change list all stand in the diff.
proof fn lemma_added_contains(
    bfs: Seq<FieldView>,
    afs: Seq<FieldView>,
    n: nat,
    k: int,
    rf: spec_fn(u64) -> Seq<char>,
)
    requires
        0 <= k < n <= afs.len(),
        field_index(bfs, afs[k].name) is Some,
    ensures
        forall|j: int|
            0 <= j < field_diff(bfs[field_index(bfs, afs[k].name)->0], afs[k], seq![SegView::Field(afs[k].name)], rf).len()
                ==> added_or_changed(bfs, afs, n, rf).contains(
                #[trigger] field_diff(bfs[field_index(bfs, afs[k].name)->0], afs[k], seq![SegView::Field(afs[k].name)], rf)[j],
            ),
    decreases n,
{
    let fd = field_diff(bfs[field_index(bfs, afs[k].name)->0], afs[k], seq![SegView::Field(afs[k].name)], rf);
    let prev = added_or_changed(bfs, afs, (n - 1) as nat, rf);
    let cur = added_or_changed(bfs, afs, n, rf);
    if k == n - 1 {
        assert(cur == prev + fd);
        assert forall|j: int| 0 <= j < fd.len() implies cur.contains(#[trigger] fd[j]) by {
            assert(cur[prev.len() + j] == fd[j]);
        }
    } else {
        lemma_added_contains(bfs, afs, (n - 1) as nat, k, rf);
        assert forall|j: int| 0 <= j < fd.len() implies cur.contains(#[trigger] fd[j]) by {
            assert(prev.contains(fd[j]));
            let p = choose|p: int| 0 <= p < prev.len() && prev[p] == fd[j];
            assert(cur[p] == prev[p]);
        }
    }
}

/// Every change entry of a field that both schemas declare stands in the
/// diff of the two schemas.
proof fn lemma_field_diff_in_diff(bfs: Seq<FieldView>, afs: Seq<FieldView>, k: int, rf: spec_fn(u64) -> Seq<char>)
    requires
        0 <= k < afs.len(),
        field_index(bfs, afs[k].name) is Some,
    ensures
        forall|j: int|
            0 <= j < field_diff(bfs[field_index(bfs, afs[k].name)->0], afs[k], seq![SegView::Field(afs[k].name)], rf).len()
                ==> diff_spec(bfs, afs, rf).contains(
                #[trigger] field_diff(bfs[field_index(bfs, afs[k].name)->0], afs[k], seq![SegView::Field(afs[k].name)], rf)[j],
            ),
{
    let fd = field_diff(bfs[field_index(bfs, afs[k].name)->0], afs[k], seq![SegView::Field(afs[k].name)], rf);
    lemma_added_contains(bfs, afs, afs.len(), k, rf);
    let ac = added_or_changed(bfs, afs, afs.len(), rf);
    assert forall|j: int| 0 <= j < fd.len() implies diff_spec(bfs, afs, rf).contains(#[trigger] fd[j]) by {
        assert(ac.contains(fd[j]));
        let p = choose|p: int| 0 <= p < ac.len() && ac[p] == fd[j];
        assert(diff_spec(bfs, afs, rf)[p] == ac[p]);
    }
}

/// A diff holding a `Breaking` entry gives a `Breaking` report.
proof fn lemma_breaking_entry_breaks(es: Seq<DiffView>, e: DiffView, bfs: Seq<FieldView>, afs: Seq<FieldView>, rf: spec_fn(u64) -> Seq<char>)
    requires
        es.contains(e),
        classify(e) == CompatibilityLevel::Breaking,
    ensures
        report_level(es, findings_spec(es, bfs, afs, rf)) == CompatibilityLevel::Breaking,
{
    law_analyze_findings(es, bfs, afs, rf);
    let p = choose|p: int| 0 <= p < es.len() && es[p] == e;
    assert(findings_spec(es, bfs, afs, rf)[p].level == CompatibilityLevel::Breaking);
}

/// The entry that records a changed `Length` minimum: at the `minimum`
/// bound, with the older and then the newer minimum as text and as bounds
/// (an absent minimum as negative infinity).
pub open spec fn length_minimum_entry(path: Seq<SegView>, before: Option<u64>, after: Option<u64>) -> DiffView {
    DiffView {
        path: path.push(SegView::Field("minimum"@)),
        kind: DiffKind::ConstraintChanged,
        before: Some(opt_length_text(before)),
        after: Some(opt_length_text(after)),
        bounds: Some((length_bound_bits(before, neg_inf_bits()), length_bound_bits(after, neg_inf_bits()))),
    }
}

/// The entry that records a changed `Length` maximum: at the `maximum`
/// bound, with the older and then the newer maximum as text and as bounds
/// (an absent maximum as positive infinity).
pub open spec fn length_maximum_entry(path: Seq<SegView>, before: Option<u64>, after: Option<u64>) -> DiffView {
    DiffView {
        path: path.push(SegView::Field("maximum"@)),
        kind: DiffKind::ConstraintChanged,
        before: Some(opt_length_text(before)),
        after: Some(opt_length_text(after)),
        bounds: Some((length_bound_bits(before, pos_inf_bits()), length_bound_bits(after, pos_inf_bits()))),
    }
}

/// Law: when both versions of a field carry `Length` constraints and their
/// effective minimum differs, the field's changes record it at the
/// `minimum` bound, older value first; when the effective maximum differs,
/// likewise at the `maximum` bound. A raised minimum, or a lowered maximum,
/// is `Breaking`; the opposite move is `Compatible` (lengths compare as the
/// nearest doubles, an absent bound as an infinity).
pub proof fn law_length_bound_change(
    b: FieldView,
    a: FieldView,
    path: Seq<SegView>,
    rf: spec_fn(u64) -> Seq<char>,
    bmin: Option<u64>,
    bmax: Option<u64>,
    amin: Option<u64>,
    amax: Option<u64>,
)
    requires
        effective_length(b.constraints) == Some((bmin, bmax)),
        effective_length(a.constraints) == Some((amin, amax)),
    ensures
        bmin != amin ==> field_diff(b, a, path, rf).contains(length_minimum_entry(path, bmin, amin)),
        bmax != amax ==> field_diff(b, a, path, rf).contains(length_maximum_entry(path, bmax, amax)),
        classify(length_minimum_entry(path, bmin, amin)) == CompatibilityLevel::Breaking <==> f64_lt(
            length_bound_bits(bmin, neg_inf_bits()),
            length_bound_bits(amin, neg_inf_bits()),
        ),
        classify(length_maximum_entry(path, bmax, amax)) == CompatibilityLevel::Breaking <==> f64_lt(
            length_bound_bits(amax, pos_inf_bits()),
            length_bound_bits(bmax, pos_inf_bits()),
        ),
{
    reveal(field_diff);
    reveal(length_part);
    let t = if !types_equal_ignoring_map_keys(b.ty, a.ty) {
        seq![entry(path, DiffKind::TypeChanged, Some(type_text(b.ty)), Some(type_text(a.ty)), None)]
    } else {
        Seq::empty()
    };
    let q = if b.required != a.required {
        seq![entry(path, DiffKind::RequiredChanged, Some(bool_text(b.required)), Some(bool_text(a.required)), None)]
    } else {
        Seq::empty()
    };
    let r = range_part(b.constraints, a.constraints, path, rf);
    let l = length_part(b.constraints, a.constraints, path);
    let rest = non_empty_part(b.constraints, a.constraints, path) + pattern_part(b.constraints, a.constraints, path)
        + custom_part(b.constraints, a.constraints, path) + (if b.description != a.description {
        seq![entry(path, DiffKind::DescriptionChanged, b.description, a.description, None)]
    } else {
        Seq::empty()
    });
    let fd = field_diff(b, a, path, rf);
    assert(fd =~= t + q + r + l + rest);
    let lo: Seq<DiffView> = if bmin != amin {
        seq![length_minimum_entry(path, bmin, amin)]
    } else {
        Seq::empty()
    };
    let hi: Seq<DiffView> = if bmax != amax {
        seq![length_maximum_entry(path, bmax, amax)]
    } else {
        Seq::empty()
    };
    assert(l =~= lo + hi);
    let base = (t + q + r).len();
    if bmin != amin {
        assert(fd[base as int] == length_minimum_entry(path, bmin, amin));
    }
    if bmax != amax {
        assert(fd[(base + lo.len()) as int] == length_maximum_entry(path, bmax, amax));
    }
    assert(is_minimum_path(length_minimum_entry(path, bmin, amin).path));
    assert(length_maximum_entry(path, bmax, amax).path.last() == SegView::Field("maximum"@));
    assert("maximum"@ != "minimum"@) by {
        reveal_strlit("maximum");
        reveal_strlit("minimum");
        assert("maximum"@[1] != "minimum"@[1]);
    }
}

/// Law: when a field that both schemas declare carries `Length`
/// constraints in both, and its effective minimum rises (an absent minimum
/// being negative infinity, lengths compared as the nearest doubles), the
/// compatibility report is `Breaking`; so is it when the effective maximum
/// falls (an absent maximum being positive infinity).
pub proof fn law_narrowed_length_breaks(
    bfs: Seq<FieldView>,
    afs: Seq<FieldView>,
    k: int,
    rf: spec_fn(u64) -> Seq<char>,
    bmin: Option<u64>,
    bmax: Option<u64>,
    amin: Option<u64>,
    amax: Option<u64>,
)
    requires
        0 <= k < afs.len(),
        field_index(bfs, afs[k].name) is Some,
        effective_length(bfs[field_index(bfs, afs[k].name)->0].constraints) == Some((bmin, bmax)),
        effective_length(afs[k].constraints) == Some((amin, amax)),
        f64_lt(length_bound_bits(bmin, neg_inf_bits()), length_bound_bits(amin, neg_inf_bits())) || f64_lt(
            length_bound_bits(amax, pos_inf_bits()),
            length_bound_bits(bmax, pos_inf_bits()),
        ),
    ensures
        report_level(diff_spec(bfs, afs, rf), findings_spec(diff_spec(bfs, afs, rf), bfs, afs, rf))
            == CompatibilityLevel::Breaking,
{
    let i = field_index(bfs, afs[k].name)->0;
    let path = seq![SegView::Field(afs[k].name)];
    let fd = field_diff(bfs[i], afs[k], path, rf);
    law_length_bound_change(bfs[i], afs[k], path, rf, bmin, bmax, amin, amax);
    lemma_field_diff_in_diff(bfs, afs, k, rf);
    let es = diff_spec(bfs, afs, rf);
    let e = if f64_lt(length_bound_bits(bmin, neg_inf_bits()), length_bound_bits(amin, neg_inf_bits())) {
        length_minimum_entry(path, bmin, amin)
    } else {
        length_maximum_entry(path, bmax, amax)
    };
    assert(fd.contains(e));
    let p = choose|p: int| 0 <= p < fd.len() && fd[p] == e;
    assert(es.contains(fd[p]));
    lemma_breaking_entry_breaks(es, e, bfs, afs, rf);
}

/// A minimum length rose: from none to some, or to a larger one.
pub open spec fn length_minimum_raised(before: Option<u64>, after: Option<u64>) -> bool {
    match (before, after) {
        (None, Some(_)) => true,
        (Some(x), Some(y)) => x < y,
        _ => false,
    }
}

/// A maximum length fell: from none to some, or to a smaller one.
pub open spec fn length_maximum_lowered(before: Option<u64>, after: Option<u64>) -> bool {
    match (before, after) {
        (None, Some(_)) => true,
        (Some(x), Some(y)) => y < x,
        _ => false,
    }
}

/// A length bound that is absent or below `2^53`, where every length is
/// exactly a double.
pub open spec fn exact_length_bound(v: Option<u64>) -> bool {
    v matches Some(x) ==> x < 0x20_0000_0000_0000
}

/// The infinities are not NaN and order below and above every exact
/// length.
proof fn lemma_length_bits_facts(v: Option<u64>)
    requires
        exact_length_bound(v),
    ensures
        !f64_is_nan(neg_inf_bits()),
        !f64_is_nan(pos_inf_bits()),
        !f64_is_nan(length_bound_bits(v, neg_inf_bits())),
        !f64_is_nan(length_bound_bits(v, pos_inf_bits())),
        f64_key(neg_inf_bits()) < 0,
        v is Some ==> 0 <= f64_key(length_bound_bits(v, neg_inf_bits())) < f64_key(pos_inf_bits()),
        v is Some ==> length_bound_bits(v, neg_inf_bits()) == length_bound_bits(v, pos_inf_bits()),
{
    lemma_p2_values();
    if let Some(x) = v {
        if x == 0 {
            assert(f64_bits_of_int(0) == 0);
            assert(crate::float_bits::mantissa_field(0) == 0);
        } else {
            lemma_small_int_bits(x as nat);
            let p = crate::float_bits::msb(x as nat);
            assert((f64_bits_of_int(x as int) as int) < 0x7ff0_0000_0000_0000) by (nonlinear_arith)
                requires
                    f64_bits_of_int(x as int) as int == (p + 1022) * crate::float_bits::p2(52) + x * crate::float_bits::p2(
                        (52 - p) as nat,
                    ),
                    x * crate::float_bits::p2((52 - p) as nat) < crate::float_bits::p2(53),
                    crate::float_bits::p2(52) == 0x10_0000_0000_0000,
                    crate::float_bits::p2(53) == 0x20_0000_0000_0000,
                    p <= 52,
            ;
        }
    }
}

/// Law: for lengths below `2^53`, a changed `Length` minimum is `Breaking`
/// exactly when it rose (from none, or to a larger length), and a changed
/// `Length` maximum exactly when it fell (from none, or to a smaller
/// length); every other change of a length bound is `Compatible`.
pub proof fn law_length_bound_classification(
    path: Seq<SegView>,
    bmin: Option<u64>,
    amin: Option<u64>,
    bmax: Option<u64>,
    amax: Option<u64>,
)
    requires
        exact_length_bound(bmin),
        exact_length_bound(amin),
        exact_length_bound(bmax),
        exact_length_bound(amax),
    ensures
        classify(length_minimum_entry(path, bmin, amin)) == CompatibilityLevel::Breaking <==> length_minimum_raised(
            bmin,
            amin,
        ),
        classify(length_maximum_entry(path, bmax, amax)) == CompatibilityLevel::Breaking <==> length_maximum_lowered(
            bmax,
            amax,
        ),
{
    lemma_length_bits_facts(bmin);
    lemma_length_bits_facts(amin);
    lemma_length_bits_facts(bmax);
    lemma_length_bits_facts(amax);
    assert(is_minimum_path(length_minimum_entry(path, bmin, amin).path));
    assert(length_maximum_entry(path, bmax, amax).path.last() == SegView::Field("maximum"@));
    assert("maximum"@ != "minimum"@) by {
        reveal_strlit("maximum");
        reveal_strlit("minimum");
        assert("maximum"@[1] != "minimum"@[1]);
    }
    if let (Some(x), Some(y)) = (bmin, amin) {
        if x < y {
            lemma_small_int_bits_monotone(x as nat, y as nat);
        } else if y < x {
            lemma_small_int_bits_monotone(y as nat, x as nat);
        }
    }
    if let (Some(x), Some(y)) = (bmax, amax) {
        if x < y {
            lemma_small_int_bits_monotone(x as nat, y as nat);
        } else if y < x {
            lemma_small_int_bits_monotone(y as nat, x as nat);
        }
    }
}

/// Law: when a field that both schemas declare carries `Length`
/// constraints in both, and its effective minimum rises (from none, or to a
/// larger length) or its effective maximum falls (from none, or to a
/// smaller length), the compatibility report is `Breaking`, for lengths
/// below `2^53`.
pub proof fn law_raised_length_minimum_breaks(
    bfs: Seq<FieldView>,
    afs: Seq<FieldView>,
    k: int,
    rf: spec_fn(u64) -> Seq<char>,
    bmin: Option<u64>,
    bmax: Option<u64>,
    amin: Option<u64>,
    amax: Option<u64>,
)
    requires
        0 <= k < afs.len(),
        field_index(bfs, afs[k].name) is Some,
        effective_length(bfs[field_index(bfs, afs[k].name)->0].constraints) == Some((bmin, bmax)),
        effective_length(afs[k].constraints) == Some((amin, amax)),
        exact_length_bound(bmin),
        exact_length_bound(amin),
        exact_length_bound(bmax),
        exact_length_bound(amax),
        length_minimum_raised(bmin, amin) || length_maximum_lowered(bmax, amax),
    ensures
        report_level(diff_spec(bfs, afs, rf), findings_spec(diff_spec(bfs, afs, rf), bfs, afs, rf))
            == CompatibilityLevel::Breaking,
{
    let path = seq![SegView::Field(afs[k].name)];
    let i = field_index(bfs, afs[k].name)->0;
    let lo = f64_lt(length_bound_bits(bmin, neg_inf_bits()), length_bound_bits(amin, neg_inf_bits()));
    let hi = f64_lt(length_bound_bits(amax, pos_inf_bits()), length_bound_bits(bmax, pos_inf_bits()));
    assert(lo || hi) by {
        law_length_bound_classification(path, bmin, amin, bmax, amax);
        law_length_bound_change(bfs[i], afs[k], path, rf, bmin, bmax, amin, amax);
    }
    law_narrowed_length_breaks(bfs, afs, k, rf, bmin, bmax, amin, amax);
}

/// The entry that records a changed type: at the field's path, with the
/// older field's type then the newer field's type, as text.
pub open spec fn type_change_entry(path: Seq<SegView>, before: Type, after: Type) -> DiffView {
    DiffView {
        path,
        kind: DiffKind::TypeChanged,
        before: Some(type_text(before)),
        after: Some(type_text(after)),
        bounds: None,
    }
}

/// No entry is of the given kind.
pub open spec fn none_of_kind(es: Seq<DiffView>, k: DiffKind) -> bool {
    forall|i: int| 0 <= i < es.len() ==> (#[trigger] es[i]).kind != k
}

/// Law: a field whose type changed (other than in map key types) has, as
/// its first change, a `TypeChanged` entry whose `before` is the older
/// type's text and whose `after` is the newer type's text; and every
/// `TypeChanged` entry among a field's changes is that entry.
pub proof fn law_type_change_entry(b: FieldView, a: FieldView, path: Seq<SegView>, rf: spec_fn(u64) -> Seq<char>)
    ensures
        !types_equal_ignoring_map_keys(b.ty, a.ty) ==> field_diff(b, a, path, rf).len() > 0 && field_diff(
            b,
            a,
            path,
            rf,
        )[0] == type_change_entry(path, b.ty, a.ty),
        forall|i: int|
            0 <= i < field_diff(b, a, path, rf).len() && (#[trigger] field_diff(b, a, path, rf)[i]).kind
                == DiffKind::TypeChanged ==> field_diff(b, a, path, rf)[i] == type_change_entry(path, b.ty, a.ty),
{
    reveal(field_diff);
    let t = if !types_equal_ignoring_map_keys(b.ty, a.ty) {
        seq![entry(path, DiffKind::TypeChanged, Some(type_text(b.ty)), Some(type_text(a.ty)), None)]
    } else {
        Seq::empty()
    };
    let q = if b.required != a.required {
        seq![entry(path, DiffKind::RequiredChanged, Some(bool_text(b.required)), Some(bool_text(a.required)), None)]
    } else {
        Seq::empty()
    };
    let r = range_part(b.constraints, a.constraints, path, rf);
    let l = length_part(b.constraints, a.constraints, path);
    let n = non_empty_part(b.constraints, a.constraints, path);
    let pp = pattern_part(b.constraints, a.constraints, path);
    let c = custom_part(b.constraints, a.constraints, path);
    let d = if b.description != a.description {
        seq![entry(path, DiffKind::DescriptionChanged, b.description, a.description, None)]
    } else {
        Seq::empty()
    };
    let rest = q + r + l + n + pp + c + d;
    lemma_constraint_parts_keep_type(b.constraints, a.constraints, path, rf);
    assert(none_of_kind(q, DiffKind::TypeChanged));
    assert(none_of_kind(d, DiffKind::TypeChanged));
    lemma_none_of_kind_concat(q, r, DiffKind::TypeChanged);
    lemma_none_of_kind_concat(q + r, l, DiffKind::TypeChanged);
    lemma_none_of_kind_concat(q + r + l, n, DiffKind::TypeChanged);
    lemma_none_of_kind_concat(q + r + l + n, pp, DiffKind::TypeChanged);
    lemma_none_of_kind_concat(q + r + l + n + pp, c, DiffKind::TypeChanged);
    lemma_none_of_kind_concat(q + r + l + n + pp + c, d, DiffKind::TypeChanged);
    let fd = field_diff(b, a, path, rf);
    assert(fd =~= t + rest);
    assert forall|i: int| 0 <= i < fd.len() && (#[trigger] fd[i]).kind == DiffKind::TypeChanged implies fd[i]
        == type_change_entry(path, b.ty, a.ty) by {
        if i >= t.len() {
            assert(fd[i] == rest[i - t.len()]);
        }
    }
}

/// No constraint change is a type change.
proof fn lemma_constraint_parts_keep_type(
    b: Seq<ConstraintView>,
    a: Seq<ConstraintView>,
    path: Seq<SegView>,
    rf: spec_fn(u64) -> Seq<char>,
)
    ensures
        none_of_kind(range_part(b, a, path, rf), DiffKind::TypeChanged),
        none_of_kind(length_part(b, a, path), DiffKind::TypeChanged),
        none_of_kind(non_empty_part(b, a, path), DiffKind::TypeChanged),
        none_of_kind(pattern_part(b, a, path), DiffKind::TypeChanged),
        none_of_kind(custom_part(b, a, path), DiffKind::TypeChanged),
{
    assert(none_of_kind(range_part(b, a, path, rf), DiffKind::TypeChanged)) by {
        reveal(range_part);
    }
    assert(none_of_kind(length_part(b, a, path), DiffKind::TypeChanged)) by {
        reveal(length_part);
    }
    assert(none_of_kind(non_empty_part(b, a, path), DiffKind::TypeChanged)) by {
        reveal(non_empty_part);
    }
    assert(none_of_kind(pattern_part(b, a, path), DiffKind::TypeChanged)) by {
        reveal(pattern_part);
        let bs = pattern_grammars(b);
        let as_ = pattern_grammars(a);
        let x = set_minus(as_, bs).map_values(
            |g: Seq<char>| entry(path, DiffKind::ConstraintAdded, None, Some(pattern_text(g)), None),
        );
        let y = set_minus(bs, as_).map_values(
            |g: Seq<char>| entry(path, DiffKind::ConstraintRemoved, Some(pattern_text(g)), None, None),
        );
        assert(none_of_kind(x, DiffKind::TypeChanged));
        assert(none_of_kind(y, DiffKind::TypeChanged));
        lemma_none_of_kind_concat(x, y, DiffKind::TypeChanged);
    }
    assert(none_of_kind(custom_part(b, a, path), DiffKind::TypeChanged)) by {
        reveal(custom_part);
        let bs = custom_constraints(b);
        let as_ = custom_constraints(a);
        let x = set_minus(as_, bs).map_values(
            |c: (Seq<char>, Seq<char>)| entry(path, DiffKind::ConstraintAdded, None, Some(custom_text(c)), None),
        );
        let y = set_minus(bs, as_).map_values(
            |c: (Seq<char>, Seq<char>)| entry(path, DiffKind::ConstraintRemoved, Some(custom_text(c)), None, None),
        );
        assert(none_of_kind(x, DiffKind::TypeChanged));
        assert(none_of_kind(y, DiffKind::TypeChanged));
        lemma_none_of_kind_concat(x, y, DiffKind::TypeChanged);
    }
}

proof fn lemma_none_of_kind_concat(a: Seq<DiffView>, b: Seq<DiffView>, k: DiffKind)
    requires
        none_of_kind(a, k),
        none_of_kind(b, k),
    ensures
        none_of_kind(a + b, k),
{
    assert forall|i: int| 0 <= i < (a + b).len() implies (#[trigger] (a + b)[i]).kind != k by {
        if i < a.len() {
            assert((a + b)[i] == a[i]);
        } else {
            assert((a + b)[i] == b[i - a.len()]);
        }
    }
}

/// Law: when a field that both schemas declare changes its type (other
/// than in map key types), the diff holds a `TypeChanged` entry at the
/// field's path from the older field's type to the newer one's, and the
/// compatibility report is `Breaking`.
pub proof fn law_type_change_in_diff(bfs: Seq<FieldView>, afs: Seq<FieldView>, k: int, rf: spec_fn(u64) -> Seq<char>)
    requires
        0 <= k < afs.len(),
        field_index(bfs, afs[k].name) is Some,
        !types_equal_ignoring_map_keys(bfs[field_index(bfs, afs[k].name)->0].ty, afs[k].ty),
    ensures
        diff_spec(bfs, afs, rf).contains(
            type_change_entry(seq![SegView::Field(afs[k].name)], bfs[field_index(bfs, afs[k].name)->0].ty, afs[k].ty),
        ),
        report_level(diff_spec(bfs, afs, rf), findings_spec(diff_spec(bfs, afs, rf), bfs, afs, rf))
            == CompatibilityLevel::Breaking,
{
    let i = field_index(bfs, afs[k].name)->0;
    let path = seq![SegView::Field(afs[k].name)];
    let fd = field_diff(bfs[i], afs[k], path, rf);
    law_type_change_entry(bfs[i], afs[k], path, rf);
    lemma_field_diff_in_diff(bfs, afs, k, rf);
    assert(diff_spec(bfs, afs, rf).contains(fd[0]));
    lemma_breaking_entry_breaks(diff_spec(bfs, afs, rf), fd[0], bfs, afs, rf);
}

/// The entry that records a changed `Range` minimum: at the `minimum`
/// bound, with the older and then the newer minimum as text and as bounds
/// (an absent minimum as negative infinity).
pub open spec fn range_minimum_entry(path: Seq<SegView>, before: Option<u64>, after: Option<u64>, rf: spec_fn(u64) -> Seq<char>) -> DiffView {
    DiffView {
        path: path.push(SegView::Field("minimum"@)),
        kind: DiffKind::ConstraintChanged,
        before: Some(opt_float_text(before, rf)),
        after: Some(opt_float_text(after, rf)),
        bounds: Some((float_bound_bits(before, neg_inf_bits()), float_bound_bits(after, neg_inf_bits()))),
    }
}

/// The entry that records a changed `Range` maximum: at the `maximum`
/// bound, with the older and then the newer maximum as text and as bounds
/// (an absent maximum as positive infinity).
pub open spec fn range_maximum_entry(path: Seq<SegView>, before: Option<u64>, after: Option<u64>, rf: spec_fn(u64) -> Seq<char>) -> DiffView {
    DiffView {
        path: path.push(SegView::Field("maximum"@)),
        kind: DiffKind::ConstraintChanged,
        before: Some(opt_float_text(before, rf)),
        after: Some(opt_float_text(after, rf)),
        bounds: Some((float_bound_bits(before, pos_inf_bits()), float_bound_bits(after, pos_inf_bits()))),
    }
}

/// Law: when both versions of a field carry `Range` constraints and their
/// effective minimum changed (other than to an equal double, or from NaN
/// to NaN), the field's changes record it at the `minimum` bound, older
/// value first; likewise for the maximum at the `maximum` bound. A raised
/// minimum, or a lowered maximum, as doubles compare (an absent bound as an
/// infinity), is `Breaking`; any other move is `Compatible`.
pub proof fn law_range_bound_change(
    b: FieldView,
    a: FieldView,
    path: Seq<SegView>,
    rf: spec_fn(u64) -> Seq<char>,
    bmin: Option<u64>,
    bmax: Option<u64>,
    amin: Option<u64>,
    amax: Option<u64>,
)
    requires
        effective_range(b.constraints) == Some((bmin, bmax)),
        effective_range(a.constraints) == Some((amin, amax)),
    ensures
        !bound_unchanged(bmin, amin) ==> field_diff(b, a, path, rf).contains(range_minimum_entry(path, bmin, amin, rf)),
        !bound_unchanged(bmax, amax) ==> field_diff(b, a, path, rf).contains(range_maximum_entry(path, bmax, amax, rf)),
        classify(range_minimum_entry(path, bmin, amin, rf)) == CompatibilityLevel::Breaking <==> f64_lt(
            float_bound_bits(bmin, neg_inf_bits()),
            float_bound_bits(amin, neg_inf_bits()),
        ),
        classify(range_maximum_entry(path, bmax, amax, rf)) == CompatibilityLevel::Breaking <==> f64_lt(
            float_bound_bits(amax, pos_inf_bits()),
            float_bound_bits(bmax, pos_inf_bits()),
        ),
{
    reveal(field_diff);
    reveal(range_part);
    let t = if !types_equal_ignoring_map_keys(b.ty, a.ty) {
        seq![entry(path, DiffKind::TypeChanged, Some(type_text(b.ty)), Some(type_text(a.ty)), None)]
    } else {
        Seq::empty()
    };
    let q = if b.required != a.required {
        seq![entry(path, DiffKind::RequiredChanged, Some(bool_text(b.required)), Some(bool_text(a.required)), None)]
    } else {
        Seq::empty()
    };
    let r = range_part(b.constraints, a.constraints, path, rf);
    let rest = length_part(b.constraints, a.constraints, path) + non_empty_part(b.constraints, a.constraints, path)
        + pattern_part(b.constraints, a.constraints, path) + custom_part(b.constraints, a.constraints, path) + (
    if b.description != a.description {
        seq![entry(path, DiffKind::DescriptionChanged, b.description, a.description, None)]
    } else {
        Seq::empty()
    });
    let fd = field_diff(b, a, path, rf);
    assert(fd =~= t + q + r + rest);
    let lo: Seq<DiffView> = if !bound_unchanged(bmin, amin) {
        seq![range_minimum_entry(path, bmin, amin, rf)]
    } else {
        Seq::empty()
    };
    let hi: Seq<DiffView> = if !bound_unchanged(bmax, amax) {
        seq![range_maximum_entry(path, bmax, amax, rf)]
    } else {
        Seq::empty()
    };
    assert(r =~= lo + hi);
    let base = (t + q).len();
    if !bound_unchanged(bmin, amin) {
        assert(fd[base as int] == range_minimum_entry(path, bmin, amin, rf));
    }
    if !bound_unchanged(bmax, amax) {
        assert(fd[(base + lo.len()) as int] == range_maximum_entry(path, bmax, amax, rf));
    }
    assert(is_minimum_path(range_minimum_entry(path, bmin, amin, rf).path));
    assert(range_maximum_entry(path, bmax, amax, rf).path.last() == SegView::Field("maximum"@));
    assert("maximum"@ != "minimum"@) by {
        reveal_strlit("maximum");
        reveal_strlit("minimum");
        assert("maximum"@[1] != "minimum"@[1]);
    }
}

/// Law: a field whose required flag changed has, among its changes, a
/// `RequiredChanged` entry at its path from the older flag to the newer
/// one (as `true` or `false`), which is `Breaking` exactly when the field
/// became required; a field whose description changed has a
/// `DescriptionChanged` entry from the older description to the newer one.
pub proof fn law_required_and_description_change(
    b: FieldView,
    a: FieldView,
    path: Seq<SegView>,
    rf: spec_fn(u64) -> Seq<char>,
)
    ensures
        b.required != a.required ==> field_diff(b, a, path, rf).contains(
            entry(path, DiffKind::RequiredChanged, Some(bool_text(b.required)), Some(bool_text(a.required)), None),
        ),
        classify(entry(path, DiffKind::RequiredChanged, Some(bool_text(b.required)), Some(bool_text(a.required)), None))
            == CompatibilityLevel::Breaking <==> a.required,
        b.description != a.description ==> field_diff(b, a, path, rf).contains(
            entry(path, DiffKind::DescriptionChanged, b.description, a.description, None),
        ),
{
    reveal(field_diff);
    let t = if !types_equal_ignoring_map_keys(b.ty, a.ty) {
        seq![entry(path, DiffKind::TypeChanged, Some(type_text(b.ty)), Some(type_text(a.ty)), None)]
    } else {
        Seq::empty()
    };
    let q = if b.required != a.required {
        seq![entry(path, DiffKind::RequiredChanged, Some(bool_text(b.required)), Some(bool_text(a.required)), None)]
    } else {
        Seq::empty()
    };
    let mid = range_part(b.constraints, a.constraints, path, rf) + length_part(b.constraints, a.constraints, path)
        + non_empty_part(b.constraints, a.constraints, path) + pattern_part(b.constraints, a.constraints, path)
        + custom_part(b.constraints, a.constraints, path);
    let d = if b.description != a.description {
        seq![entry(path, DiffKind::DescriptionChanged, b.description, a.description, None)]
    } else {
        Seq::empty()
    };
    let fd = field_diff(b, a, path, rf);
    assert(fd =~= t + q + mid + d);
    if b.required != a.required {
        assert(fd[t.len() as int] == q[0]);
    }
    if b.description != a.description {
        assert(fd[(t + q + mid).len() as int] == d[0]);
    }
    assert("true"@ != "false"@) by {
        reveal_strlit("true");
        reveal_strlit("false");
        assert("true"@.len() != "false"@.len());
    }
}

/// The entry for a field only the newer schema declares.
pub open spec fn added_entry(f: FieldView) -> DiffView {
    entry(seq![SegView::Field(f.name)], DiffKind::FieldAdded, None, Some(field_text(f)), None)
}

/// The entry for a field only the older schema declares.
pub open spec fn removed_entry(f: FieldView) -> DiffView {
    entry(seq![SegView::Field(f.name)], DiffKind::FieldRemoved, Some(field_text(f)), None, None)
}

proof fn lemma_added_entry_in(bfs: Seq<FieldView>, afs: Seq<FieldView>, n: nat, k: int, rf: spec_fn(u64) -> Seq<char>)
    requires
        0 <= k < n <= afs.len(),
        field_index(bfs, afs[k].name) is None,
    ensures
        added_or_changed(bfs, afs, n, rf).contains(added_entry(afs[k])),
    decreases n,
{
    let prev = added_or_changed(bfs, afs, (n - 1) as nat, rf);
    let cur = added_or_changed(bfs, afs, n, rf);
    if k == n - 1 {
        assert(cur[prev.len() as int] == added_entry(afs[k]));
    } else {
        lemma_added_entry_in(bfs, afs, (n - 1) as nat, k, rf);
        let p = choose|p: int| 0 <= p < prev.len() && prev[p] == added_entry(afs[k]);
        assert(cur[p] == prev[p]);
    }
}

proof fn lemma_removed_entry_in(bfs: Seq<FieldView>, afs: Seq<FieldView>, n: nat, k: int)
    requires
        0 <= k < n <= bfs.len(),
        field_index(afs, bfs[k].name) is None,
    ensures
        removed(bfs, afs, n).contains(removed_entry(bfs[k])),
    decreases n,
{
    let prev = removed(bfs, afs, (n - 1) as nat);
    let cur = removed(bfs, afs, n);
    if k == n - 1 {
        assert(cur[prev.len() as int] == removed_entry(bfs[k]));
    } else {
        lemma_removed_entry_in(bfs, afs, (n - 1) as nat, k);
        let p = choose|p: int| 0 <= p < prev.len() && prev[p] == removed_entry(bfs[k]);
        assert(cur[p] == prev[p]);
    }
}

/// A required field's summary ends with `(required)`.
proof fn lemma_field_text_required(f: FieldView)
    requires
        f.required,
    ensures
        ends_with(field_text(f), "(required)"@),
{
    reveal_strlit("required");
    reveal_strlit(" (");
    reveal_strlit(")");
    reveal_strlit("(required)");
    let t = field_text(f);
    let head = type_text(f.ty);
    assert(t == head + " ("@ + "required"@ + ")"@);
    assert(t.subrange(t.len() - 10, t.len() as int) =~= "(required)"@);
}

/// Law: a field only the newer schema declares stands in the diff as a
/// `FieldAdded` entry at its name with its summary; when the field is
/// required the compatibility report is `Breaking`.
pub proof fn law_added_field_in_diff(bfs: Seq<FieldView>, afs: Seq<FieldView>, k: int, rf: spec_fn(u64) -> Seq<char>)
    requires
        0 <= k < afs.len(),
        field_index(bfs, afs[k].name) is None,
    ensures
        diff_spec(bfs, afs, rf).contains(added_entry(afs[k])),
        afs[k].required ==> report_level(diff_spec(bfs, afs, rf), findings_spec(diff_spec(bfs, afs, rf), bfs, afs, rf))
            == CompatibilityLevel::Breaking,
{
    lemma_added_entry_in(bfs, afs, afs.len(), k, rf);
    let ac = added_or_changed(bfs, afs, afs.len(), rf);
    let p = choose|p: int| 0 <= p < ac.len() && ac[p] == added_entry(afs[k]);
    assert(diff_spec(bfs, afs, rf)[p] == ac[p]);
    if afs[k].required {
        lemma_field_text_required(afs[k]);
        lemma_breaking_entry_breaks(diff_spec(bfs, afs, rf), added_entry(afs[k]), bfs, afs, rf);
    }
}

/// Law: a field only the older schema declares stands in the diff as a
/// `FieldRemoved` entry at its name with its summary, and the
/// compatibility report is `Breaking`.
pub proof fn law_removed_field_in_diff(bfs: Seq<FieldView>, afs: Seq<FieldView>, k: int, rf: spec_fn(u64) -> Seq<char>)
    requires
        0 <= k < bfs.len(),
        field_index(afs, bfs[k].name) is None,
    ensures
        diff_spec(bfs, afs, rf).contains(removed_entry(bfs[k])),
        report_level(diff_spec(bfs, afs, rf), findings_spec(diff_spec(bfs, afs, rf), bfs, afs, rf))
            == CompatibilityLevel::Breaking,
{
    lemma_removed_entry_in(bfs, afs, bfs.len(), k);
    let rm = removed(bfs, afs, bfs.len());
    let ac = added_or_changed(bfs, afs, afs.len(), rf);
    let p = choose|p: int| 0 <= p < rm.len() && rm[p] == removed_entry(bfs[k]);
    assert(diff_spec(bfs, afs, rf)[ac.len() + p] == rm[p]);
    lemma_breaking_entry_breaks(diff_spec(bfs, afs, rf), removed_entry(bfs[k]), bfs, afs, rf);
}

} // verus!
