//! Semantic identifiers, field annotations, pluggable ontology resolution,
//! and semantic validation of a document, kept apart from structural
//! validation.
use vstd::prelude::*;
use crate::document::{lookup, DocView, Document};
use crate::errors::ErrorCode;
use crate::path::{path_text, Path, SegView};
use crate::schema::{field_index, lemma_field_index_found, FieldView, Schema, fields_view};
use crate::text::{
    ascii_digit, ascii_lower, ascii_upper, char_debug, chars_of, debug_char, debug_chars, debug_str,
    is_ascii_digit, is_ascii_lower, is_ascii_upper, push_str, split_chars, split_on, str_debug, str_eq,
};

verus! {

/// An ASCII letter of either case.
pub open spec fn is_letter(c: char) -> bool {
    is_ascii_lower(c) || is_ascii_upper(c)
}

/// A character allowed after the first one of a semantic segment.
pub open spec fn is_id_char(c: char) -> bool {
    is_letter(c) || is_ascii_digit(c) || c == '_'
}

/// The first position at or after `i` holding a character not allowed in a
/// semantic segment (`s.len()` if there is none).
pub open spec fn first_bad_id_char(s: Seq<char>, i: int) -> int
    decreases s.len() - i,
{
    if i >= s.len() {
        s.len() as int
    } else if !is_id_char(s[i]) {
        i
    } else {
        first_bad_id_char(s, i + 1)
    }
}

/// Why `seg` is not a semantic segment (an ASCII letter of either case,
/// then ASCII letters, digits or underscores), if it is not.
pub open spec fn id_segment_reason(seg: Seq<char>) -> Option<Seq<char>> {
    if seg.len() == 0 {
        Some("segment must not be empty"@)
    } else if !is_letter(seg[0]) {
        Some("segment "@ + str_debug(seg) + " must start with an ASCII letter, found "@ + char_debug(seg[0]))
    } else if first_bad_id_char(seg, 1) < seg.len() {
        Some(
            "segment "@ + str_debug(seg) + " contains disallowed character "@ + char_debug(
                seg[first_bad_id_char(seg, 1)],
            ),
        )
    } else {
        None
    }
}

/// The reason of the first failing segment among `segs[i..]`.
pub open spec fn id_segments_reason(segs: Seq<Seq<char>>, i: int) -> Option<Seq<char>>
    decreases segs.len() - i,
{
    if i >= segs.len() || i < 0 {
        None
    } else if id_segment_reason(segs[i]) is Some {
        id_segment_reason(segs[i])
    } else {
        id_segments_reason(segs, i + 1)
    }
}

/// Why `s` is not a semantic identifier, if it is not: the reason of its
/// first failing `.`-separated segment.
pub open spec fn semantic_id_reason(s: Seq<char>) -> Option<Seq<char>> {
    id_segments_reason(split_on(s, '.'), 0)
}

/// A semantic segment: an ASCII letter of either case, then only ASCII
/// letters, digits or underscores.
pub open spec fn is_id_segment(seg: Seq<char>) -> bool {
    &&& seg.len() > 0
    &&& is_letter(seg[0])
    &&& forall|j: int| 1 <= j < seg.len() ==> is_id_char(#[trigger] seg[j])
}

proof fn lemma_first_bad_id_char_none(s: Seq<char>, i: int)
    requires
        0 <= i,
    ensures
        first_bad_id_char(s, i) >= s.len() <==> forall|j: int| i <= j < s.len() ==> is_id_char(#[trigger] s[j]),
    decreases s.len() - i,
{
    if i < s.len() {
        lemma_first_bad_id_char_none(s, i + 1);
    }
}

proof fn lemma_id_segments_reason(segs: Seq<Seq<char>>, i: int)
    requires
        0 <= i,
    ensures
        id_segments_reason(segs, i) is None <==> forall|j: int| i <= j < segs.len() ==> is_id_segment(#[trigger] segs[j]),
    decreases segs.len() - i,
{
    if i < segs.len() {
        lemma_id_segments_reason(segs, i + 1);
        lemma_first_bad_id_char_none(segs[i], 1);
    }
}

/// Law: `SemanticId::parse(s)` succeeds exactly when every `.`-separated
/// segment of `s` is a semantic segment (so the empty text, an empty
/// segment, or a segment starting with a digit is refused).
pub proof fn law_semantic_id_grammar(s: Seq<char>)
    ensures
        semantic_id_reason(s) is None <==> forall|j: int|
            0 <= j < split_on(s, '.').len() ==> is_id_segment(#[trigger] split_on(s, '.')[j]),
{
    lemma_id_segments_reason(split_on(s, '.'), 0);
}

/// A stable identifier referencing an external ontology concept:
/// dot-separated segments, each an ASCII letter (either case) followed by
/// ASCII letters, digits, or underscores. Case is significant.
#[derive(Debug, PartialEq, Eq, Hash, PartialOrd, Ord)]
pub struct SemanticId(String);

impl View for SemanticId {
    type V = Seq<char>;

    closed spec fn view(&self) -> Seq<char> {
        self.0@
    }
}

impl Clone for SemanticId {
    fn clone(&self) -> (r: Self)
        ensures
            r@ == self@,
    {
        SemanticId(self.0.clone())
    }
}

/// An identifier that does not follow the grammar.
#[derive(Debug, PartialEq, Eq)]
pub struct SemanticIdError {
    pub input: String,
    pub reason: String,
}

impl ErrorCode for SemanticIdError {
    open spec fn code_spec(&self) -> Seq<char> {
        "padagonia.semantic-id.invalid"@
    }

    fn code(&self) -> (r: &'static str) {
        "padagonia.semantic-id.invalid"
    }
}

impl SemanticIdError {
    /// The human-readable message of this error.
    pub fn message(&self) -> (r: String)
        ensures
            r@ == "invalid semantic identifier "@ + str_debug(self.input@) + ": "@ + self.reason@,
    {
        let mut r = String::new();
        push_str(&mut r, "invalid semantic identifier ");
        push_str(&mut r, debug_str(self.input.as_str()).as_str());
        push_str(&mut r, ": ");
        push_str(&mut r, self.reason.as_str());
        proof {
            assert(r@ =~= "invalid semantic identifier "@ + str_debug(self.input@) + ": "@ + self.reason@);
        }
        r
    }
}

/// Checks one segment.
fn check_id_segment(seg: &[char]) -> (r: Option<String>)
    ensures
        match id_segment_reason(seg@) {
            Some(why) => r matches Some(w) && w@ == why,
            None => r is None,
        },
{
    let mut why = String::new();
    if seg.len() == 0 {
        push_str(&mut why, "segment must not be empty");
        return Some(why);
    }
    if !(ascii_lower(seg[0]) || ascii_upper(seg[0])) {
        push_str(&mut why, "segment ");
        push_str(&mut why, debug_chars(seg).as_str());
        push_str(&mut why, " must start with an ASCII letter, found ");
        push_str(&mut why, debug_char(seg[0]).as_str());
        proof {
            assert(why@ =~= id_segment_reason(seg@)->0);
        }
        return Some(why);
    }
    let mut i: usize = 1;
    while i < seg.len()
        invariant
            1 <= i <= seg.len(),
            is_letter(seg@[0]),
            first_bad_id_char(seg@, 1) == first_bad_id_char(seg@, i as int),
        decreases seg.len() - i,
    {
        let c = seg[i];
        if !(ascii_lower(c) || ascii_upper(c) || ascii_digit(c) || c == '_') {
            let mut why = String::new();
            push_str(&mut why, "segment ");
            push_str(&mut why, debug_chars(seg).as_str());
            push_str(&mut why, " contains disallowed character ");
            push_str(&mut why, debug_char(c).as_str());
            proof {
                assert(why@ =~= id_segment_reason(seg@)->0);
            }
            return Some(why);
        }
        i = i + 1;
    }
    None
}

impl SemanticId {
    /// Parses a semantic identifier; the error names the first failing
    /// segment's reason and carries the whole input.
    pub fn parse(s: &str) -> (r: Result<SemanticId, SemanticIdError>)
        ensures
            match semantic_id_reason(s@) {
                None => r matches Ok(id) && id@ == s@,
                Some(why) => r matches Err(e) && e.input@ == s@ && e.reason@ == why,
            },
    {
        let cs = chars_of(s);
        let segs = split_chars(cs.as_slice(), '.');
        let ghost sv = split_on(s@, '.');
        let mut i: usize = 0;
        while i < segs.len()
            invariant
                i <= segs@.len(),
                cs@ == s@,
                sv == split_on(s@, '.'),
                segs@.len() == sv.len(),
                forall|j: int| 0 <= j < segs@.len() ==> #[trigger] segs@[j]@ == sv[j],
                id_segments_reason(sv, 0) == id_segments_reason(sv, i as int),
            decreases segs@.len() - i,
        {
            match check_id_segment(segs[i].as_slice()) {
                Some(why) => {
                    return Err(SemanticIdError { input: s.to_string(), reason: why });
                },
                None => {},
            }
            i = i + 1;
        }
        Ok(SemanticId(s.to_string()))
    }

    pub fn as_str(&self) -> (r: &str)
        ensures
            r@ == self@,
    {
        self.0.as_str()
    }

    /// The text of the identifier.
    pub fn to_string(&self) -> (r: String)
        ensures
            r@ == self@,
    {
        self.0.clone()
    }
}

/// A resolver's own failure (I/O, timeout, malformed response, ...).
#[derive(Debug, Clone, PartialEq, Eq)]
pub struct ResolverError {
    pub reason: String,
}

impl ResolverError {
    pub fn new(reason: &str) -> (r: ResolverError)
        ensures
            r.reason@ == reason@,
    {
        ResolverError { reason: reason.to_string() }
    }

    /// The text of the error: its reason.
    pub fn message(&self) -> (r: String)
        ensures
            r@ == self.reason@,
    {
        self.reason.clone()
    }
}

/// Failures that prevent semantic validation from running at all.
#[derive(Debug, PartialEq, Eq)]
pub enum SemanticError {
    UnknownAnnotatedField { field: String },
}

impl ErrorCode for SemanticError {
    open spec fn code_spec(&self) -> Seq<char> {
        "padagonia.validation.unknown-annotated-field"@
    }

    fn code(&self) -> (r: &'static str) {
        "padagonia.validation.unknown-annotated-field"
    }
}

impl SemanticError {
    /// The human-readable message of this error.
    pub fn message(&self) -> (r: String)
        ensures
            r@ == "semantic annotation names field "@ + str_debug(self->field@)
                + ", which does not exist in the schema"@,
    {
        let mut r = String::new();
        match self {
            SemanticError::UnknownAnnotatedField { field } => {
                push_str(&mut r, "semantic annotation names field ");
                push_str(&mut r, debug_str(field.as_str()).as_str());
                push_str(&mut r, ", which does not exist in the schema");
            },
        }
        proof {
            assert(r@ =~= "semantic annotation names field "@ + str_debug(self->field@)
                + ", which does not exist in the schema"@);
        }
        r
    }
}

/// One field's semantic annotation: the concept it represents, and its
/// outgoing `(relation, target)` edges to other concepts.
#[derive(Debug, Clone, PartialEq)]
pub struct FieldSemantics {
    pub concept: SemanticId,
    pub relations: Vec<(String, SemanticId)>,
}

/// The mathematical value of `FieldSemantics`.
pub struct SemView {
    pub concept: Seq<char>,
    pub relations: Seq<(Seq<char>, Seq<char>)>,
}

pub open spec fn relation_views(v: Seq<(String, SemanticId)>) -> Seq<(Seq<char>, Seq<char>)> {
    v.map_values(|r: (String, SemanticId)| (r.0@, r.1@))
}

impl View for FieldSemantics {
    type V = SemView;

    open spec fn view(&self) -> SemView {
        SemView { concept: self.concept@, relations: relation_views(self.relations@) }
    }
}

impl FieldSemantics {
    pub fn new(concept: SemanticId) -> (r: FieldSemantics)
        ensures
            r@ == (SemView { concept: concept@, relations: Seq::empty() }),
    {
        let r = FieldSemantics { concept, relations: Vec::new() };
        proof {
            assert(r@.relations =~= Seq::<(Seq<char>, Seq<char>)>::empty());
        }
        r
    }

    pub fn with_relation(self, relation: &str, target: SemanticId) -> (r: FieldSemantics)
        ensures
            r@ == (SemView { concept: self@.concept, relations: self@.relations.push((relation@, target@)) }),
    {
        let mut f = self;
        f.relations.push((relation.to_string(), target));
        proof {
            assert(f@.relations =~= self@.relations.push((relation@, target@)));
        }
        f
    }

    fn copy(&self) -> (r: FieldSemantics)
        ensures
            r@ == self@,
    {
        let mut rels: Vec<(String, SemanticId)> = Vec::new();
        let mut i: usize = 0;
        while i < self.relations.len()
            invariant
                i <= self.relations@.len(),
                relation_views(rels@) == relation_views(self.relations@).take(i as int),
            decreases self.relations@.len() - i,
        {
            let a = self.relations[i].0.clone();
            let b = self.relations[i].1.clone();
            let ghost prev = rels@;
            rels.push((a, b));
            proof {
                assert(relation_views(rels@) =~= relation_views(prev).push(relation_views(self.relations@)[i as int]));
                assert(relation_views(rels@) =~= relation_views(self.relations@).take(i as int + 1));
            }
            i = i + 1;
        }
        proof {
            assert(relation_views(self.relations@).take(self.relations@.len() as int) =~= relation_views(
                self.relations@,
            ));
        }
        FieldSemantics { concept: self.concept.clone(), relations: rels }
    }
}

/// The annotations of a list of `(field name, semantics)` entries, later
/// entries winning.
pub open spec fn annotation_map(es: Seq<(String, FieldSemantics)>) -> Map<Seq<char>, SemView>
    decreases es.len(),
{
    if es.len() == 0 {
        Map::empty()
    } else {
        annotation_map(es.drop_last()).insert(es.last().0@, es.last().1@)
    }
}

/// A map from schema field name to its semantics, built apart from the
/// schema itself. Each field name occurs once.
#[derive(Debug, PartialEq)]
pub struct SemanticAnnotations {
    fields: Vec<(String, FieldSemantics)>,
}

impl View for SemanticAnnotations {
    type V = Map<Seq<char>, SemView>;

    closed spec fn view(&self) -> Map<Seq<char>, SemView> {
        annotation_map(self.fields@)
    }
}

proof fn lemma_annotation_map(es: Seq<(String, FieldSemantics)>)
    requires
        forall|i: int, j: int| 0 <= i < j < es.len() ==> #[trigger] es[i].0@ != #[trigger] es[j].0@,
    ensures
        forall|k: Seq<char>|
            #![trigger annotation_map(es).contains_key(k)]
            annotation_map(es).contains_key(k) <==> exists|i: int| 0 <= i < es.len() && #[trigger] es[i].0@ == k,
        forall|i: int| 0 <= i < es.len() ==> annotation_map(es)[#[trigger] es[i].0@] == es[i].1@,
        annotation_map(es).dom().finite(),
    decreases es.len(),
{
    if es.len() > 0 {
        let d = es.drop_last();
        assert forall|i: int, j: int| 0 <= i < j < d.len() implies #[trigger] d[i].0@ != #[trigger] d[j].0@ by {
            assert(d[i] == es[i]);
            assert(d[j] == es[j]);
        }
        lemma_annotation_map(d);
        assert forall|k: Seq<char>|
            #![trigger annotation_map(es).contains_key(k)]
            annotation_map(es).contains_key(k) <==> exists|i: int| 0 <= i < es.len() && #[trigger] es[i].0@ == k by {
            if annotation_map(es).contains_key(k) && k != es.last().0@ {
                let i = choose|i: int| 0 <= i < d.len() && #[trigger] d[i].0@ == k;
                assert(es[i] == d[i]);
            }
            if exists|i: int| 0 <= i < es.len() && #[trigger] es[i].0@ == k {
                let i = choose|i: int| 0 <= i < es.len() && #[trigger] es[i].0@ == k;
                if i < d.len() {
                    assert(d[i] == es[i]);
                }
            }
        }
        assert forall|i: int| 0 <= i < es.len() implies annotation_map(es)[#[trigger] es[i].0@] == es[i].1@ by {
            if i < d.len() {
                assert(d[i] == es[i]);
                assert(es[i].0@ != es[es.len() - 1].0@);
            }
        }
    }
}

proof fn lemma_annotation_replace(es: Seq<(String, FieldSemantics)>, i: int, k: String, v: FieldSemantics)
    requires
        forall|a: int, b: int| 0 <= a < b < es.len() ==> #[trigger] es[a].0@ != #[trigger] es[b].0@,
        0 <= i < es.len(),
        es[i].0@ == k@,
    ensures
        forall|a: int, b: int|
            0 <= a < b < es.update(i, (k, v)).len() ==> #[trigger] es.update(i, (k, v))[a].0@ != #[trigger] es.update(
                i,
                (k, v),
            )[b].0@,
        annotation_map(es.update(i, (k, v))) == annotation_map(es).insert(k@, v@),
{
    let u = es.update(i, (k, v));
    assert forall|a: int, b: int| 0 <= a < b < u.len() implies #[trigger] u[a].0@ != #[trigger] u[b].0@ by {
        assert(u[a].0@ == es[a].0@);
        assert(u[b].0@ == es[b].0@);
    }
    lemma_annotation_map(es);
    lemma_annotation_map(u);
    let m1 = annotation_map(u);
    let m2 = annotation_map(es).insert(k@, v@);
    assert forall|key: Seq<char>| #[trigger] m1.contains_key(key) == m2.contains_key(key) by {
        if m1.contains_key(key) {
            let j = choose|j: int| 0 <= j < u.len() && #[trigger] u[j].0@ == key;
            assert(es[j].0@ == key);
        }
        if annotation_map(es).contains_key(key) {
            let j = choose|j: int| 0 <= j < es.len() && #[trigger] es[j].0@ == key;
            assert(u[j].0@ == key);
        }
    }
    assert forall|key: Seq<char>| #[trigger] m1.contains_key(key) implies m1[key] == m2[key] by {
        let j = choose|j: int| 0 <= j < u.len() && #[trigger] u[j].0@ == key;
        if j != i {
            assert(u[j] == es[j]);
        }
    }
    assert(m1 =~= m2);
}

proof fn lemma_annotation_push(es: Seq<(String, FieldSemantics)>, k: String, v: FieldSemantics)
    requires
        forall|a: int, b: int| 0 <= a < b < es.len() ==> #[trigger] es[a].0@ != #[trigger] es[b].0@,
        forall|j: int| 0 <= j < es.len() ==> es[j].0@ != k@,
    ensures
        forall|a: int, b: int|
            0 <= a < b < es.push((k, v)).len() ==> #[trigger] es.push((k, v))[a].0@ != #[trigger] es.push(
                (k, v),
            )[b].0@,
        annotation_map(es.push((k, v))) == annotation_map(es).insert(k@, v@),
{
    let u = es.push((k, v));
    assert forall|a: int, b: int| 0 <= a < b < u.len() implies #[trigger] u[a].0@ != #[trigger] u[b].0@ by {
        assert(u[a] == es[a]);
        if b < es.len() {
            assert(u[b] == es[b]);
        }
    }
    assert(u.drop_last() =~= es);
}

impl SemanticAnnotations {
    /// Each field name occurs once.
    pub closed spec fn wf(&self) -> bool {
        forall|i: int, j: int|
            0 <= i < j < self.fields@.len() ==> #[trigger] self.fields@[i].0@ != #[trigger] self.fields@[j].0@
    }

    pub fn new() -> (r: SemanticAnnotations)
        ensures
            r.wf(),
            r@ == Map::<Seq<char>, SemView>::empty(),
    {
        SemanticAnnotations { fields: Vec::new() }
    }

    /// Sets the semantics of `field_name`, replacing any earlier one; gives
    /// back the annotations for chaining.
    pub fn annotate(&mut self, field_name: &str, semantics: FieldSemantics) -> (r: &mut SemanticAnnotations)
        requires
            old(self).wf(),
        ensures
            r.wf(),
            r@ == old(self)@.insert(field_name@, semantics@),
            *final(self) == *final(r),
    {
        self.set_annotation(field_name, semantics);
        self
    }

    fn set_annotation(&mut self, field_name: &str, semantics: FieldSemantics)
        requires
            old(self).wf(),
        ensures
            final(self).wf(),
            final(self)@ == old(self)@.insert(field_name@, semantics@),
    {
        let ghost before = self.fields@;
        let mut i: usize = 0;
        while i < self.fields.len()
            invariant
                i <= self.fields@.len(),
                self.fields@ == before,
                before == old(self).fields@,
                forall|a: int, b: int| 0 <= a < b < before.len() ==> #[trigger] before[a].0@ != #[trigger] before[b].0@,
                forall|j: int| 0 <= j < i ==> self.fields@[j].0@ != field_name@,
            decreases self.fields@.len() - i,
        {
            if str_eq(self.fields[i].0.as_str(), field_name) {
                let ghost sv = semantics@;
                let key = field_name.to_string();
                let ghost kv = (key, semantics);
                proof {
                    lemma_annotation_replace(before, i as int, key, semantics);
                }
                self.fields.set(i, (key, semantics));
                proof {
                    assert(self.fields@ == before.update(i as int, kv));
                    assert(kv.0@ == field_name@);
                    assert(annotation_map(self.fields@) == annotation_map(before).insert(kv.0@, kv.1@));
                    assert(self@ == annotation_map(self.fields@));
                }
                return;
            }
            i = i + 1;
        }
        let key = field_name.to_string();
        proof {
            lemma_annotation_push(before, key, semantics);
        }
        self.fields.push((key, semantics));
    }

    /// The semantics of `field_name`, if annotated.
    pub fn get(&self, field_name: &str) -> (r: Option<&FieldSemantics>)
        requires
            self.wf(),
        ensures
            match r {
                Some(f) => self@.contains_key(field_name@) && self@[field_name@] == f@,
                None => !self@.contains_key(field_name@),
            },
    {
        let mut i: usize = 0;
        while i < self.fields.len()
            invariant
                i <= self.fields@.len(),
                self.wf(),
                forall|j: int| 0 <= j < i ==> self.fields@[j].0@ != field_name@,
            decreases self.fields@.len() - i,
        {
            if str_eq(self.fields[i].0.as_str(), field_name) {
                proof {
                    lemma_annotation_map(self.fields@);
                    assert(self@[self.fields@[i as int].0@] == self.fields@[i as int].1@);
                }
                return Some(&self.fields[i].1);
            }
            i = i + 1;
        }
        proof {
            lemma_annotation_map(self.fields@);
            if self@.contains_key(field_name@) {
                let j = choose|j: int| 0 <= j < self.fields@.len() && #[trigger] self.fields@[j].0@ == field_name@;
                assert(self.fields@[j].0@ != field_name@);
            }
        }
        None
    }

    /// Every annotated field name, once each.
    pub fn field_names(&self) -> (r: Vec<&str>)
        requires
            self.wf(),
        ensures
            forall|k: Seq<char>| self@.contains_key(k) <==> exists|i: int| 0 <= i < r@.len() && #[trigger] r@[i]@ == k,
            forall|i: int, j: int| 0 <= i < j < r@.len() ==> #[trigger] r@[i]@ != #[trigger] r@[j]@,
    {
        proof {
            lemma_annotation_map(self.fields@);
        }
        let mut out: Vec<&str> = Vec::new();
        let mut i: usize = 0;
        while i < self.fields.len()
            invariant
                i <= self.fields@.len(),
                out@.len() == i,
                forall|j: int| 0 <= j < i ==> #[trigger] out@[j]@ == self.fields@[j].0@,
            decreases self.fields@.len() - i,
        {
            out.push(self.fields[i].0.as_str());
            i = i + 1;
        }
        proof {
            assert forall|k: Seq<char>| self@.contains_key(k) <==> exists|i: int| 0 <= i < out@.len() && #[trigger] out@[i]@ == k by {
                if self@.contains_key(k) {
                    let i = choose|i: int| 0 <= i < self.fields@.len() && #[trigger] self.fields@[i].0@ == k;
                    assert(out@[i]@ == k);
                }
                if exists|i: int| 0 <= i < out@.len() && #[trigger] out@[i]@ == k {
                    let i = choose|i: int| 0 <= i < out@.len() && #[trigger] out@[i]@ == k;
                    assert(self.fields@[i].0@ == k);
                }
            }
            assert forall|a: int, b: int| 0 <= a < b < out@.len() implies #[trigger] out@[a]@ != #[trigger] out@[b]@ by {
                assert(out@[a]@ == self.fields@[a].0@);
                assert(out@[b]@ == self.fields@[b].0@);
            }
        }
        out
    }
}

impl Clone for SemanticAnnotations {
    fn clone(&self) -> (r: Self)
        ensures
            r@ == self@,
            self.wf() ==> r.wf(),
    {
        let mut v: Vec<(String, FieldSemantics)> = Vec::new();
        let mut i: usize = 0;
        while i < self.fields.len()
            invariant
                i <= self.fields@.len(),
                v@.len() == i,
                forall|j: int| 0 <= j < i ==> #[trigger] v@[j].0@ == self.fields@[j].0@ && v@[j].1@ == self.fields@[j].1@,
            decreases self.fields@.len() - i,
        {
            v.push((self.fields[i].0.clone(), self.fields[i].1.copy()));
            i = i + 1;
        }
        proof {
            lemma_annotation_map_pointwise(v@, self.fields@);
        }
        SemanticAnnotations { fields: v }
    }
}

proof fn lemma_annotation_map_pointwise(a: Seq<(String, FieldSemantics)>, b: Seq<(String, FieldSemantics)>)
    requires
        a.len() == b.len(),
        forall|j: int| 0 <= j < a.len() ==> #[trigger] a[j].0@ == b[j].0@ && a[j].1@ == b[j].1@,
    ensures
        annotation_map(a) == annotation_map(b),
    decreases a.len(),
{
    if a.len() > 0 {
        let (da, db) = (a.drop_last(), b.drop_last());
        assert forall|j: int| 0 <= j < da.len() implies #[trigger] da[j].0@ == db[j].0@ && da[j].1@ == db[j].1@ by {
            assert(da[j] == a[j]);
            assert(db[j] == b[j]);
        }
        lemma_annotation_map_pointwise(da, db);
        assert(a.last().0@ == b.last().0@);
    }
}

/// The pluggable boundary to an external ontology authority. Fallible: a
/// real implementation may do I/O. An implementation states in
/// `concept_answer` and `relation_answer` which answers it may give to each
/// question; an answer is seen by its value (`answer_of`).
pub trait SemanticResolver {
    /// Whether `a` is an answer this resolver may give to whether concept
    /// `id` exists. An implementation that does not state it promises
    /// nothing: every answer is allowed.
    open spec fn concept_answer(&self, id: Seq<char>, a: Answer) -> bool {
        true
    }

    /// Whether `a` is an answer this resolver may give to whether
    /// `relation` is permitted from `from` to `to`. An implementation that
    /// does not state it promises nothing: every answer is allowed.
    open spec fn relation_answer(&self, from: Seq<char>, relation: Seq<char>, to: Seq<char>, a: Answer) -> bool {
        true
    }

    /// Does this ontology concept exist?
    fn concept_exists(&self, id: &SemanticId) -> (r: Result<bool, ResolverError>)
        ensures
            self.concept_answer(id@, answer_of(r)),
    ;

    /// Is the named relation from `from` to `to` permitted?
    fn relation_permitted(&self, from: &SemanticId, relation: &str, to: &SemanticId) -> (r: Result<
        bool,
        ResolverError,
    >)
        ensures
            self.relation_answer(from@, relation@, to@, answer_of(r)),
    ;
}

/// A question put to a resolver: does a concept exist, or is a relation
/// from one concept to another permitted.
pub enum Question {
    Concept(Seq<char>),
    Relation(Seq<char>, Seq<char>, Seq<char>),
}

/// Whether `a` is an answer `resolver` may give to `q`.
pub open spec fn answers_question<R: SemanticResolver>(resolver: R, q: Question, a: Answer) -> bool {
    match q {
        Question::Concept(id) => resolver.concept_answer(id, a),
        Question::Relation(from, relation, to) => resolver.relation_answer(from, relation, to, a),
    }
}

/// The questions asked while checking one annotated field, in order: its
/// concept exists; then, for each relation, its target exists and the
/// relation from the concept to the target is permitted.
pub open spec fn field_questions(sem: SemView) -> Seq<Question> {
    Seq::new(
        2 * sem.relations.len() + 1,
        |j: int|
            if j == 0 {
                Question::Concept(sem.concept)
            } else if j % 2 == 1 {
                Question::Concept(sem.relations[(j - 1) / 2].1)
            } else {
                Question::Relation(sem.concept, sem.relations[(j - 2) / 2].0, sem.relations[(j - 2) / 2].1)
            },
    )
}

/// The questions asked for each schema field in turn: those of
/// `field_questions` for an annotated field present in the document, none
/// for any other.
pub open spec fn semantic_questions(fs: Seq<FieldView>, ann: Map<Seq<char>, SemView>, doc: DocView) -> Seq<
    Seq<Question>,
> {
    Seq::new(
        fs.len(),
        |k: int|
            if ann.contains_key(fs[k].name) && lookup(doc, fs[k].name) is Some {
                field_questions(ann[fs[k].name])
            } else {
                Seq::empty()
            },
    )
}

/// Whether `answers` answers `questions` one for one, each answer one that
/// `resolver` may give to its question.
pub open spec fn answers_questions<R: SemanticResolver>(
    resolver: R,
    questions: Seq<Question>,
    answers: Seq<Answer>,
) -> bool {
    &&& answers.len() == questions.len()
    &&& forall|j: int| 0 <= j < questions.len() ==> #[trigger] answers_question(resolver, questions[j], answers[j])
}

/// An in-memory resolver: a set of known concepts and a set of permitted
/// `(from, relation, to)` triples.
#[derive(Debug, Clone)]
pub struct StaticResolver {
    known: Vec<SemanticId>,
    permitted_relations: Vec<(SemanticId, String, SemanticId)>,
}

pub open spec fn id_views(v: Seq<SemanticId>) -> Set<Seq<char>> {
    v.map_values(|i: SemanticId| i@).to_set()
}

pub open spec fn triple_views(v: Seq<(SemanticId, String, SemanticId)>) -> Set<(Seq<char>, Seq<char>, Seq<char>)> {
    v.map_values(|t: (SemanticId, String, SemanticId)| (t.0@, t.1@, t.2@)).to_set()
}

impl StaticResolver {
    pub closed spec fn known_spec(&self) -> Set<Seq<char>> {
        id_views(self.known@)
    }

    pub closed spec fn permitted_spec(&self) -> Set<(Seq<char>, Seq<char>, Seq<char>)> {
        triple_views(self.permitted_relations@)
    }

    pub fn new() -> (r: StaticResolver)
        ensures
            r.known_spec() == Set::<Seq<char>>::empty(),
            r.permitted_spec() == Set::<(Seq<char>, Seq<char>, Seq<char>)>::empty(),
    {
        let r = StaticResolver { known: Vec::new(), permitted_relations: Vec::new() };
        proof {
            assert(r.known_spec() =~= Set::<Seq<char>>::empty());
            assert(r.permitted_spec() =~= Set::<(Seq<char>, Seq<char>, Seq<char>)>::empty());
        }
        r
    }

    /// Registers a known concept.
    pub fn with_concept(self, id: SemanticId) -> (r: StaticResolver)
        ensures
            r.known_spec() == self.known_spec().insert(id@),
            r.permitted_spec() == self.permitted_spec(),
    {
        let mut r = self;
        let ghost iv = id@;
        r.known.push(id);
        proof {
            let s1 = r.known@.map_values(|i: SemanticId| i@);
            let s0 = self.known@.map_values(|i: SemanticId| i@);
            assert(s1 =~= s0.push(iv));
            assert(s0.push(iv).to_set() =~= s0.to_set().insert(iv)) by {
                s0.lemma_push_to_set_commute(iv);
            }
        }
        r
    }

    /// Registers `relation` as permitted from `from` to `to`, and both
    /// endpoints as known concepts.
    pub fn with_relation(self, from: SemanticId, relation: &str, to: SemanticId) -> (r: StaticResolver)
        ensures
            r.known_spec() == self.known_spec().insert(from@).insert(to@),
            r.permitted_spec() == self.permitted_spec().insert((from@, relation@, to@)),
    {
        let mut r = self;
        let ghost (fv, tv) = (from@, to@);
        r.known.push(from.clone());
        r.known.push(to.clone());
        r.permitted_relations.push((from, relation.to_string(), to));
        proof {
            let s0 = self.known@.map_values(|i: SemanticId| i@);
            let s2 = r.known@.map_values(|i: SemanticId| i@);
            assert(s2 =~= s0.push(fv).push(tv));
            s0.lemma_push_to_set_commute(fv);
            s0.push(fv).lemma_push_to_set_commute(tv);
            let t0 = self.permitted_relations@.map_values(|t: (SemanticId, String, SemanticId)| (t.0@, t.1@, t.2@));
            let t1 = r.permitted_relations@.map_values(|t: (SemanticId, String, SemanticId)| (t.0@, t.1@, t.2@));
            assert(t1 =~= t0.push((fv, relation@, tv)));
            t0.lemma_push_to_set_commute((fv, relation@, tv));
        }
        r
    }
}

impl SemanticResolver for StaticResolver {
    open spec fn concept_answer(&self, id: Seq<char>, a: Answer) -> bool {
        a == Answer::Ok(self.known_spec().contains(id))
    }

    open spec fn relation_answer(&self, from: Seq<char>, relation: Seq<char>, to: Seq<char>, a: Answer) -> bool {
        a == Answer::Ok(self.permitted_spec().contains((from, relation, to)))
    }

    fn concept_exists(&self, id: &SemanticId) -> (r: Result<bool, ResolverError>)
        ensures
            r == Ok::<bool, ResolverError>(self.known_spec().contains(id@)),
    {
        let ghost s = self.known@.map_values(|i: SemanticId| i@);
        let mut i: usize = 0;
        while i < self.known.len()
            invariant
                i <= self.known@.len(),
                s == self.known@.map_values(|i: SemanticId| i@),
                forall|j: int| 0 <= j < i ==> s[j] != id@,
            decreases self.known@.len() - i,
        {
            if str_eq(self.known[i].as_str(), id.as_str()) {
                proof {
                    assert(s[i as int] == id@);
                    assert(s.contains(id@));
                }
                return Ok(true);
            }
            i = i + 1;
        }
        proof {
            assert(!s.contains(id@));
        }
        Ok(false)
    }

    fn relation_permitted(&self, from: &SemanticId, relation: &str, to: &SemanticId) -> (r: Result<
        bool,
        ResolverError,
    >)
        ensures
            r == Ok::<bool, ResolverError>(self.permitted_spec().contains((from@, relation@, to@))),
    {
        let ghost s = self.permitted_relations@.map_values(|t: (SemanticId, String, SemanticId)| (t.0@, t.1@, t.2@));
        let ghost x = (from@, relation@, to@);
        let mut i: usize = 0;
        while i < self.permitted_relations.len()
            invariant
                i <= self.permitted_relations@.len(),
                s == self.permitted_relations@.map_values(|t: (SemanticId, String, SemanticId)| (t.0@, t.1@, t.2@)),
                x == (from@, relation@, to@),
                forall|j: int| 0 <= j < i ==> s[j] != x,
            decreases self.permitted_relations@.len() - i,
        {
            let t = &self.permitted_relations[i];
            if str_eq(t.0.as_str(), from.as_str()) && str_eq(t.1.as_str(), relation) && str_eq(
                t.2.as_str(),
                to.as_str(),
            ) {
                proof {
                    assert(s[i as int] == x);
                    assert(s.contains(x));
                }
                return Ok(true);
            }
            proof {
                assert(s[i as int] == (t.0@, t.1@, t.2@));
            }
            i = i + 1;
        }
        proof {
            assert(!s.contains(x));
        }
        Ok(false)
    }
}

/// The severity of a semantic finding.
#[derive(Debug, Clone, Copy, PartialEq, Eq, Structural)]
pub enum Severity {
    Error,
    Warning,
}

/// One semantic finding against a document, at a specific path.
#[derive(Debug, Clone, PartialEq)]
pub struct SemanticIssue {
    pub path: Path,
    pub code: String,
    pub severity: Severity,
    pub message: String,
    pub semantic_id: Option<SemanticId>,
}

/// The mathematical value of a `SemanticIssue`.
pub struct SemIssueView {
    pub path: Seq<SegView>,
    pub code: Seq<char>,
    pub severity: Severity,
    pub message: Seq<char>,
    pub semantic_id: Option<Seq<char>>,
}

pub open spec fn opt_id_view(o: Option<SemanticId>) -> Option<Seq<char>> {
    match o {
        Some(i) => Some(i@),
        None => None,
    }
}

impl View for SemanticIssue {
    type V = SemIssueView;

    open spec fn view(&self) -> SemIssueView {
        SemIssueView {
            path: self.path@,
            code: self.code@,
            severity: self.severity,
            message: self.message@,
            semantic_id: opt_id_view(self.semantic_id),
        }
    }
}

pub open spec fn sem_issue_views(v: Seq<SemanticIssue>) -> Seq<SemIssueView> {
    v.map_values(|i: SemanticIssue| i@)
}

/// The outcome of semantic validation: zero or more issues.
#[derive(Debug, Clone, PartialEq)]
pub struct SemanticValidationResult {
    issues: Vec<SemanticIssue>,
}

impl View for SemanticValidationResult {
    type V = Seq<SemIssueView>;

    closed spec fn view(&self) -> Seq<SemIssueView> {
        sem_issue_views(self.issues@)
    }
}

impl SemanticValidationResult {
    pub fn new(issues: Vec<SemanticIssue>) -> (r: Self)
        ensures
            r@ == sem_issue_views(issues@),
    {
        SemanticValidationResult { issues }
    }

    /// No issue has severity `Error`.
    pub fn is_valid(&self) -> (r: bool)
        ensures
            r == !exists|i: int| 0 <= i < self@.len() && #[trigger] self@[i].severity == Severity::Error,
    {
        let mut i: usize = 0;
        while i < self.issues.len()
            invariant
                i <= self.issues@.len(),
                forall|j: int| 0 <= j < i ==> self.issues@[j].severity != Severity::Error,
            decreases self.issues@.len() - i,
        {
            if self.issues[i].severity == Severity::Error {
                proof {
                    assert(self@[i as int].severity == Severity::Error);
                }
                return false;
            }
            i = i + 1;
        }
        proof {
            assert forall|j: int| 0 <= j < self@.len() implies #[trigger] self@[j].severity != Severity::Error by {
                assert(self@[j] == self.issues@[j]@);
            }
        }
        true
    }

    pub fn issues(&self) -> (r: &[SemanticIssue])
        ensures
            sem_issue_views(r@) == self@,
    {
        self.issues.as_slice()
    }
}

impl Default for SemanticValidationResult {
    fn default() -> (r: Self)
        ensures
            r@ == Seq::<SemIssueView>::empty(),
    {
        let r = SemanticValidationResult { issues: Vec::new() };
        proof {
            assert(r@ =~= Seq::<SemIssueView>::empty());
        }
        r
    }
}

/// A resolver's answer as the checks see it: a verdict, or the reason it
/// could not give one.
pub type Answer = Result<bool, Seq<char>>;

pub open spec fn error_issue(path: Seq<SegView>, code: Seq<char>, message: Seq<char>, id: Seq<char>) -> SemIssueView {
    SemIssueView { path, code, severity: Severity::Error, message, semantic_id: Some(id) }
}

/// What an existence answer for `id` yields.
pub open spec fn existence_issues(
    answer: Answer,
    id: Seq<char>,
    path: Seq<SegView>,
    unknown_code: Seq<char>,
    unknown_message: Seq<char>,
) -> Seq<SemIssueView> {
    match answer {
        Ok(true) => Seq::empty(),
        Ok(false) => seq![error_issue(path, unknown_code, unknown_message, id)],
        Err(reason) => seq![error_issue(path, "semantic.resolver.unavailable"@, "could not check existence of "@ + id + ": "@ + reason, id)],
    }
}

/// What a permission answer for `relation` from `concept` to `target`
/// yields.
pub open spec fn permission_issues(
    answer: Answer,
    concept: Seq<char>,
    relation: Seq<char>,
    target: Seq<char>,
    path: Seq<SegView>,
) -> Seq<SemIssueView> {
    match answer {
        Ok(true) => Seq::empty(),
        Ok(false) => seq![error_issue(path, "semantic.relation.not-permitted"@, "relation "@ + str_debug(relation) + " from "@ + concept + " to "@ + target + " is not permitted by the ontology"@, concept)],
        Err(reason) => seq![error_issue(path, "semantic.resolver.unavailable"@, "could not check permission for relation "@ + str_debug(relation) + ": "@ + reason, concept)],
    }
}

/// The answer at `j`, with `Ok(true)` past the end.
pub open spec fn answer_at(answers: Seq<Answer>, j: int) -> Answer {
    if 0 <= j < answers.len() {
        answers[j]
    } else {
        Ok(true)
    }
}

/// The issues of the first `n` relations of a field: for relation `r`, the
/// answer at `2r + 1` is whether its target exists and the one at `2r + 2`
/// whether it is permitted.
pub open spec fn relations_issues(
    name: Seq<char>,
    sem: SemView,
    path: Seq<SegView>,
    answers: Seq<Answer>,
    n: nat,
) -> Seq<SemIssueView>
    decreases n,
{
    if n == 0 || n > sem.relations.len() {
        Seq::empty()
    } else {
        let (relation, target) = sem.relations[n - 1];
        relations_issues(name, sem, path, answers, (n - 1) as nat) + existence_issues(
            answer_at(answers, 2 * n - 1),
            target,
            path,
            "semantic.relation.target-unknown"@,
            "field "@ + str_debug(name) + "'s "@ + str_debug(relation) + " relation targets unknown ontology concept "@
                + target,
        ) + permission_issues(answer_at(answers, 2 * n as int), sem.concept, relation, target, path)
    }
}

/// The issues of one annotated field present in the document, given the
/// resolver's answers in the order they are asked: the concept first, then
/// each relation's target and permission.
pub open spec fn field_semantic_issues(name: Seq<char>, sem: SemView, answers: Seq<Answer>) -> Seq<SemIssueView> {
    let path = seq![SegView::Field(name)];
    existence_issues(
        answer_at(answers, 0),
        sem.concept,
        path,
        "semantic.concept.unknown"@,
        "field "@ + str_debug(name) + " references unknown ontology concept "@ + sem.concept,
    ) + relations_issues(name, sem, path, answers, sem.relations.len())
}

/// The issues of the first `n` schema fields; `answers[k]` holds the answers
/// given while checking field `k`.
pub open spec fn semantic_issues(
    fs: Seq<FieldView>,
    ann: Map<Seq<char>, SemView>,
    doc: DocView,
    answers: Seq<Seq<Answer>>,
    n: nat,
) -> Seq<SemIssueView>
    decreases n,
{
    if n == 0 || n > fs.len() {
        Seq::empty()
    } else {
        let f = fs[n - 1];
        semantic_issues(fs, ann, doc, answers, (n - 1) as nat) + if ann.contains_key(f.name) && lookup(
            doc,
            f.name,
        ) is Some {
            field_semantic_issues(
                f.name,
                ann[f.name],
                if n - 1 < answers.len() {
                    answers[n - 1]
                } else {
                    Seq::empty()
                },
            )
        } else {
            Seq::empty()
        }
    }
}

/// How the checks see a resolver's result.
pub open spec fn answer_of(r: Result<bool, ResolverError>) -> Answer {
    match r {
        Ok(b) => Ok(b),
        Err(e) => Err(e.reason@),
    }
}

fn push_sem_issue(issues: &mut Vec<SemanticIssue>, x: SemanticIssue)
    ensures
        sem_issue_views(final(issues)@) == sem_issue_views(old(issues)@).push(x@),
{
    issues.push(x);
    proof {
        assert(sem_issue_views(final(issues)@) =~= sem_issue_views(old(issues)@).push(x@));
    }
}

/// Appends what an existence result for `id` yields: nothing when it
/// exists, an issue with `unknown_code` and `unknown_message` when it does
/// not, and an unavailability issue when the resolver failed.
pub fn check_exists(
    result: &Result<bool, ResolverError>,
    id: &SemanticId,
    path: &Path,
    issues: &mut Vec<SemanticIssue>,
    unknown_code: &str,
    unknown_message: String,
)
    ensures
        sem_issue_views(final(issues)@) == sem_issue_views(old(issues)@) + existence_issues(
            answer_of(*result),
            id@,
            path@,
            unknown_code@,
            unknown_message@,
        ),
{
    match result {
        Ok(true) => {},
        Ok(false) => {
            push_sem_issue(
                issues,
                SemanticIssue {
                    path: path.clone(),
                    code: unknown_code.to_string(),
                    severity: Severity::Error,
                    message: unknown_message,
                    semantic_id: Some(id.clone()),
                },
            );
        },
        Err(err) => {
            let mut message = String::new();
            push_str(&mut message, "could not check existence of ");
            push_str(&mut message, id.as_str());
            push_str(&mut message, ": ");
            push_str(&mut message, err.reason.as_str());
            push_sem_issue(
                issues,
                SemanticIssue {
                    path: path.clone(),
                    code: "semantic.resolver.unavailable".to_string(),
                    severity: Severity::Error,
                    message,
                    semantic_id: Some(id.clone()),
                },
            );
        },
    }
    proof {
        assert(sem_issue_views(final(issues)@) =~= sem_issue_views(old(issues)@) + existence_issues(
            answer_of(*result),
            id@,
            path@,
            unknown_code@,
            unknown_message@,
        ));
    }
}

/// Appends what a permission result yields: nothing when permitted, a
/// not-permitted issue when refused, and an unavailability issue when the
/// resolver failed.
pub fn check_permission(
    result: &Result<bool, ResolverError>,
    concept: &SemanticId,
    relation: &str,
    target: &SemanticId,
    path: &Path,
    issues: &mut Vec<SemanticIssue>,
)
    ensures
        sem_issue_views(final(issues)@) == sem_issue_views(old(issues)@) + permission_issues(
            answer_of(*result),
            concept@,
            relation@,
            target@,
            path@,
        ),
{
    match result {
        Ok(true) => {},
        Ok(false) => {
            let mut message = String::new();
            push_str(&mut message, "relation ");
            push_str(&mut message, debug_str(relation).as_str());
            push_str(&mut message, " from ");
            push_str(&mut message, concept.as_str());
            push_str(&mut message, " to ");
            push_str(&mut message, target.as_str());
            push_str(&mut message, " is not permitted by the ontology");
            push_sem_issue(
                issues,
                SemanticIssue {
                    path: path.clone(),
                    code: "semantic.relation.not-permitted".to_string(),
                    severity: Severity::Error,
                    message,
                    semantic_id: Some(concept.clone()),
                },
            );
        },
        Err(err) => {
            let mut message = String::new();
            push_str(&mut message, "could not check permission for relation ");
            push_str(&mut message, debug_str(relation).as_str());
            push_str(&mut message, ": ");
            push_str(&mut message, err.reason.as_str());
            push_sem_issue(
                issues,
                SemanticIssue {
                    path: path.clone(),
                    code: "semantic.resolver.unavailable".to_string(),
                    severity: Severity::Error,
                    message,
                    semantic_id: Some(concept.clone()),
                },
            );
        },
    }
    proof {
        assert(sem_issue_views(final(issues)@) =~= sem_issue_views(old(issues)@) + permission_issues(
            answer_of(*result),
            concept@,
            relation@,
            target@,
            path@,
        ));
    }
}

/// The values of a resolver's results, in order.
pub open spec fn answer_views(v: Seq<Result<bool, ResolverError>>) -> Seq<Answer> {
    v.map_values(|r: Result<bool, ResolverError>| answer_of(r))
}

/// Asks `resolver` the questions of one annotated field, in order, and
/// gives back its results.
fn ask_field<R: SemanticResolver>(resolver: &R, sem: &FieldSemantics) -> (r: Vec<Result<bool, ResolverError>>)
    ensures
        answers_questions(*resolver, field_questions(sem@), answer_views(r@)),
{
    let ghost fq = field_questions(sem@);
    let mut r: Vec<Result<bool, ResolverError>> = Vec::new();
    r.push(resolver.concept_exists(&sem.concept));
    let mut i: usize = 0;
    proof {
        assert(fq[0] == Question::Concept(sem@.concept));
        assert(answer_views(r@)[0] == answer_of(r@[0]));
    }
    while i < sem.relations.len()
        invariant
            i <= sem.relations@.len(),
            fq == field_questions(sem@),
            r@.len() == 2 * i + 1,
            forall|j: int| 0 <= j < r@.len() ==> #[trigger] answers_question(*resolver, fq[j], answer_of(r@[j])),
        decreases sem.relations@.len() - i,
    {
        let (relation, target) = (&sem.relations[i].0, &sem.relations[i].1);
        proof {
            assert(sem@.relations[i as int] == (relation@, target@));
            assert(fq[2 * i + 1] == Question::Concept(target@));
            assert(fq[2 * i + 2] == Question::Relation(sem@.concept, relation@, target@));
        }
        let ghost before = r@;
        r.push(resolver.concept_exists(target));
        r.push(resolver.relation_permitted(&sem.concept, relation.as_str(), target));
        proof {
            assert forall|j: int| 0 <= j < r@.len() implies #[trigger] answers_question(*resolver, fq[j], answer_of(r@[j])) by {
                if j < before.len() {
                    assert(r@[j] == before[j]);
                }
            }
        }
        i = i + 1;
    }
    proof {
        assert forall|j: int| 0 <= j < fq.len() implies #[trigger] answers_question(*resolver, fq[j], answer_views(r@)[j]) by {
            assert(answer_views(r@)[j] == answer_of(r@[j]));
        }
    }
    r
}

/// The result at `j`, `Ok(true)` past the end.
fn result_at<'a>(
    results: &'a Vec<Result<bool, ResolverError>>,
    j: u128,
    yes: &'a Result<bool, ResolverError>,
) -> (r: &'a Result<bool, ResolverError>)
    requires
        *yes == Ok::<bool, ResolverError>(true),
    ensures
        answer_of(*r) == answer_at(answer_views(results@), j as int),
{
    if j < results.len() as u128 {
        &results[j as usize]
    } else {
        yes
    }
}

/// Appends the issues of one annotated field present in the document,
/// given the results the resolver gave to its questions, in order: the
/// concept first, then each relation's target and permission; a missing
/// result counts as `Ok(true)`.
fn field_issues<'a>(
    name: &str,
    sem: &FieldSemantics,
    results: &'a Vec<Result<bool, ResolverError>>,
    issues: &mut Vec<SemanticIssue>,
)
    ensures
        sem_issue_views(final(issues)@) == sem_issue_views(old(issues)@) + field_semantic_issues(
            name@,
            sem@,
            answer_views(results@),
        ),
{
    let yes: Result<bool, ResolverError> = Ok(true);
    let ghost answers = answer_views(results@);
    let root = Path::root();
    let path = root.field(name);
    let ghost p = seq![SegView::Field(name@)];
    proof {
        assert(path@ =~= p);
    }
    let r0 = result_at(results, 0, &yes);
    let mut message = String::new();
    push_str(&mut message, "field ");
    push_str(&mut message, debug_str(name).as_str());
    push_str(&mut message, " references unknown ontology concept ");
    push_str(&mut message, sem.concept.as_str());
    proof {
        assert(message@ =~= "field "@ + str_debug(name@) + " references unknown ontology concept "@ + sem@.concept);
    }
    check_exists(r0, &sem.concept, &path, issues, "semantic.concept.unknown", message);
    let ghost start = sem_issue_views(issues@);
    let ghost sv = sem@;
    let mut i: usize = 0;
    proof {
        assert(start =~= start + relations_issues(name@, sv, p, answers, 0));
    }
    while i < sem.relations.len()
        invariant
            i <= sem.relations@.len(),
            sv == sem@,
            path@ == p,
            answers == answer_views(results@),
            yes == Ok::<bool, ResolverError>(true),
            sem_issue_views(issues@) == start + relations_issues(name@, sv, p, answers, i as nat),
        decreases sem.relations@.len() - i,
    {
        let (relation, target) = (&sem.relations[i].0, &sem.relations[i].1);
        proof {
            assert(sv.relations[i as int] == (relation@, target@));
        }
        let r1 = result_at(results, 2 * (i as u128) + 1, &yes);
        let mut message = String::new();
        push_str(&mut message, "field ");
        push_str(&mut message, debug_str(name).as_str());
        push_str(&mut message, "'s ");
        push_str(&mut message, debug_str(relation.as_str()).as_str());
        push_str(&mut message, " relation targets unknown ontology concept ");
        push_str(&mut message, target.as_str());
        proof {
            assert(message@ =~= "field "@ + str_debug(name@) + "'s "@ + str_debug(relation@)
                + " relation targets unknown ontology concept "@ + target@);
        }
        check_exists(r1, target, &path, issues, "semantic.relation.target-unknown", message);
        let r2 = result_at(results, 2 * (i as u128) + 2, &yes);
        check_permission(r2, &sem.concept, relation.as_str(), target, &path, issues);
        proof {
            assert(sem_issue_views(issues@) =~= start + relations_issues(name@, sv, p, answers, (i + 1) as nat));
        }
        i = i + 1;
    }
    proof {
        assert(sem_issue_views(issues@) =~= sem_issue_views(old(issues)@) + field_semantic_issues(name@, sv, answers));
    }
}

/// The first annotated name, in `field_names` order, that is not a field
/// of the schema.
fn unknown_annotation(schema: &Schema, annotations: &SemanticAnnotations) -> (r: Option<String>)
    requires
        annotations.wf(),
    ensures
        r is None <==> forall|k: Seq<char>|
            #[trigger] annotations@.contains_key(k) ==> field_index(schema.fields_spec(), k) is Some,
        r matches Some(f) ==> annotations@.contains_key(f@) && field_index(schema.fields_spec(), f@) is None,
{
    let names = annotations.field_names();
    let mut i: usize = 0;
    while i < names.len()
        invariant
            i <= names@.len(),
            annotations.wf(),
            forall|k: Seq<char>|
                annotations@.contains_key(k) <==> exists|j: int| 0 <= j < names@.len() && #[trigger] names@[j]@ == k,
            forall|j: int| 0 <= j < i ==> field_index(schema.fields_spec(), #[trigger] names@[j]@) is Some,
        decreases names@.len() - i,
    {
        proof {
            lemma_field_index_found(schema.fields_spec(), names@[i as int]@);
        }
        if schema.field(names[i]).is_none() {
            proof {
                assert(annotations@.contains_key(names@[i as int]@));
            }
            return Some(names[i].to_string());
        }
        i = i + 1;
    }
    proof {
        assert forall|k: Seq<char>| #[trigger] annotations@.contains_key(k) implies field_index(
            schema.fields_spec(),
            k,
        ) is Some by {
            let j = choose|j: int| 0 <= j < names@.len() && #[trigger] names@[j]@ == k;
        }
    }
    None
}

/// Asks `resolver` the questions of every annotated field present in the
/// document, field by field in schema order, and gives back its results.
fn ask_all<R: SemanticResolver>(
    schema: &Schema,
    annotations: &SemanticAnnotations,
    resolver: &R,
    doc: &Document,
) -> (r: Vec<Vec<Result<bool, ResolverError>>>)
    requires
        annotations.wf(),
    ensures
        r@.len() == schema.fields_spec().len(),
        forall|k: int|
            0 <= k < r@.len() ==> #[trigger] answers_questions(
                *resolver,
                semantic_questions(schema.fields_spec(), annotations@, doc@)[k],
                answer_views(r@[k]@),
            ),
{
    let fields = schema.fields();
    let ghost fs = schema.fields_spec();
    let ghost qs = semantic_questions(fs, annotations@, doc@);
    let mut r: Vec<Vec<Result<bool, ResolverError>>> = Vec::new();
    let mut k: usize = 0;
    while k < fields.len()
        invariant
            k <= fields@.len(),
            fs == fields_view(fields@),
            fs == schema.fields_spec(),
            qs == semantic_questions(fs, annotations@, doc@),
            annotations.wf(),
            r@.len() == k,
            forall|j: int| 0 <= j < k ==> #[trigger] answers_questions(*resolver, qs[j], answer_views(r@[j]@)),
        decreases fields@.len() - k,
    {
        let field = &fields[k];
        proof {
            assert(fs[k as int] == field@);
        }
        let sem = annotations.get(field.name());
        let present = doc.get(field.name()).is_some();
        let got = match sem {
            Some(sem) => {
                if present {
                    ask_field(resolver, sem)
                } else {
                    Vec::new()
                }
            },
            None => Vec::new(),
        };
        proof {
            if !(annotations@.contains_key(fs[k as int].name) && lookup(doc@, fs[k as int].name) is Some) {
                assert(answer_views(got@) =~= Seq::<Answer>::empty());
            }
            assert(answers_questions(*resolver, qs[k as int], answer_views(got@)));
        }
        let ghost before = r@;
        r.push(got);
        proof {
            assert forall|j: int| 0 <= j < k + 1 implies #[trigger] answers_questions(*resolver, qs[j], answer_views(r@[j]@)) by {
                if j < k {
                    assert(r@[j] == before[j]);
                }
            }
        }
        k = k + 1;
    }
    r
}

/// The result of semantic validation given the results a resolver gave:
/// `results[k]` holds those given while checking schema field `k`, in the
/// order of `field_questions`; a missing result counts as `Ok(true)`. The
/// issues are those `semantic_issues` gives for these answers.
pub fn semantic_result(
    schema: &Schema,
    annotations: &SemanticAnnotations,
    doc: &Document,
    results: &Vec<Vec<Result<bool, ResolverError>>>,
) -> (r: SemanticValidationResult)
    requires
        annotations.wf(),
    ensures
        r@ == semantic_issues(
            schema.fields_spec(),
            annotations@,
            doc@,
            results@.map_values(|v: Vec<Result<bool, ResolverError>>| answer_views(v@)),
            schema.fields_spec().len(),
        ),
{
    let ghost all = results@.map_values(|v: Vec<Result<bool, ResolverError>>| answer_views(v@));
    let mut issues: Vec<SemanticIssue> = Vec::new();
    let fields = schema.fields();
    let ghost fs = schema.fields_spec();
    let empty: Vec<Result<bool, ResolverError>> = Vec::new();
    let mut k: usize = 0;
    proof {
        assert(sem_issue_views(issues@) =~= Seq::<SemIssueView>::empty());
    }
    while k < fields.len()
        invariant
            k <= fields@.len(),
            fs == fields_view(fields@),
            fs == schema.fields_spec(),
            annotations.wf(),
            all == results@.map_values(|v: Vec<Result<bool, ResolverError>>| answer_views(v@)),
            empty@.len() == 0,
            sem_issue_views(issues@) == semantic_issues(fs, annotations@, doc@, all, k as nat),
        decreases fields@.len() - k,
    {
        let field = &fields[k];
        proof {
            assert(fs[k as int] == field@);
        }
        let sem = annotations.get(field.name());
        let present = doc.get(field.name()).is_some();
        match sem {
            Some(sem) => {
                if present {
                    let got = if k < results.len() {
                        &results[k]
                    } else {
                        &empty
                    };
                    proof {
                        if k < results.len() {
                            assert(all[k as int] == answer_views(results@[k as int]@));
                        } else {
                            assert(answer_views(empty@) =~= Seq::<Answer>::empty());
                        }
                    }
                    field_issues(field.name(), sem, got, &mut issues);
                }
            },
            None => {},
        }
        proof {
            assert(sem_issue_views(issues@) =~= semantic_issues(fs, annotations@, doc@, all, (k + 1) as nat));
        }
        k = k + 1;
    }
    SemanticValidationResult::new(issues)
}

/// Checks `doc` against the semantic annotations of `schema`'s fields, via
/// `resolver`. Every annotated name must be a field of the schema, else
/// `UnknownAnnotatedField` names one that is not, before the resolver is
/// asked anything. Otherwise each annotated field present in the document
/// is checked, in schema order, and every finding, resolver failures
/// included, becomes an issue. The resolver is asked exactly the questions
/// of `semantic_questions`, field by field, and the result is what
/// `semantic_issues` gives for answers it may give to them.
pub fn validate_semantic<R: SemanticResolver>(
    schema: &Schema,
    annotations: &SemanticAnnotations,
    resolver: &R,
    doc: &Document,
) -> (r: Result<SemanticValidationResult, SemanticError>)
    requires
        annotations.wf(),
    ensures
        r is Err <==> exists|k: Seq<char>|
            #[trigger] annotations@.contains_key(k) && field_index(schema.fields_spec(), k) is None,
        match r {
            Err(e) => annotations@.contains_key(e->field@) && field_index(schema.fields_spec(), e->field@) is None,
            Ok(res) => exists|answers: Seq<Seq<Answer>>|
                {
                    &&& answers.len() == schema.fields_spec().len()
                    &&& forall|k: int|
                        0 <= k < answers.len() ==> #[trigger] answers_questions(
                            *resolver,
                            semantic_questions(schema.fields_spec(), annotations@, doc@)[k],
                            answers[k],
                        )
                    &&& res@ == semantic_issues(
                        schema.fields_spec(),
                        annotations@,
                        doc@,
                        answers,
                        schema.fields_spec().len(),
                    )
                },
        },
{
    if let Some(field) = unknown_annotation(schema, annotations) {
        return Err(SemanticError::UnknownAnnotatedField { field });
    }
    let results = ask_all(schema, annotations, resolver, doc);
    let res = semantic_result(schema, annotations, doc, &results);
    proof {
        let answers = results@.map_values(|v: Vec<Result<bool, ResolverError>>| answer_views(v@));
        assert forall|k: int| 0 <= k < answers.len() implies #[trigger] answers_questions(
            *resolver,
            semantic_questions(schema.fields_spec(), annotations@, doc@)[k],
            answers[k],
        ) by {
            assert(answers[k] == answer_views(results@[k]@));
        }
    }
    Ok(res)
}

/// The issues hold one with this code, path and semantic id.
pub open spec fn has_sem_issue(x: Seq<SemIssueView>, code: Seq<char>, path: Seq<SegView>, id: Seq<char>) -> bool {
    exists|i: int|
        0 <= i < x.len() && (#[trigger] x[i]).code == code && x[i].path == path && x[i].semantic_id == Some(id)
}

/// The answers for relation `r` (its target's existence at `2r + 1`, its
/// permission at `2r + 2`) yield their issues among the first `n`
/// relations' issues.
proof fn lemma_relation_answers(name: Seq<char>, sem: SemView, path: Seq<SegView>, answers: Seq<Answer>, n: nat, r: int)
    requires
        0 <= r < n <= sem.relations.len(),
    ensures
        answer_at(answers, 2 * r + 1) == Ok::<bool, Seq<char>>(false) ==> has_sem_issue(
            relations_issues(name, sem, path, answers, n),
            "semantic.relation.target-unknown"@,
            path,
            sem.relations[r].1,
        ),
        answer_at(answers, 2 * r + 2) == Ok::<bool, Seq<char>>(false) ==> has_sem_issue(
            relations_issues(name, sem, path, answers, n),
            "semantic.relation.not-permitted"@,
            path,
            sem.concept,
        ),
    decreases n,
{
    let prev = relations_issues(name, sem, path, answers, (n - 1) as nat);
    let cur = relations_issues(name, sem, path, answers, n);
    if r == n - 1 {
        let (relation, target) = sem.relations[r];
        let ex = existence_issues(
            answer_at(answers, 2 * n - 1),
            target,
            path,
            "semantic.relation.target-unknown"@,
            "field "@ + str_debug(name) + "'s "@ + str_debug(relation) + " relation targets unknown ontology concept "@
                + target,
        );
        let pm = permission_issues(answer_at(answers, 2 * n as int), sem.concept, relation, target, path);
        assert(cur == prev + ex + pm);
        if answer_at(answers, 2 * r + 1) == Ok::<bool, Seq<char>>(false) {
            assert(cur[prev.len() as int] == ex[0]);
        }
        if answer_at(answers, 2 * r + 2) == Ok::<bool, Seq<char>>(false) {
            assert(cur[(prev.len() + ex.len()) as int] == pm[0]);
        }
    } else {
        lemma_relation_answers(name, sem, path, answers, (n - 1) as nat, r);
        assert(cur == prev + (cur.subrange(prev.len() as int, cur.len() as int)));
        if answer_at(answers, 2 * r + 1) == Ok::<bool, Seq<char>>(false) {
            let i = choose|i: int|
                0 <= i < prev.len() && (#[trigger] prev[i]).code == "semantic.relation.target-unknown"@ && prev[i].path
                    == path && prev[i].semantic_id == Some(sem.relations[r].1);
            assert(cur[i] == prev[i]);
        }
        if answer_at(answers, 2 * r + 2) == Ok::<bool, Seq<char>>(false) {
            let i = choose|i: int|
                0 <= i < prev.len() && (#[trigger] prev[i]).code == "semantic.relation.not-permitted"@ && prev[i].path
                    == path && prev[i].semantic_id == Some(sem.concept);
            assert(cur[i] == prev[i]);
        }
    }
}

/// Law: what the resolver's answers yield for an annotated field present
/// in the document, all at the field's path. The first answer is whether
/// its concept exists: `false` puts first a `semantic.concept.unknown`
/// issue naming the concept, a failure to answer a
/// `semantic.resolver.unavailable` issue naming it. Then, for each
/// relation, the answer at `2r + 1` is whether its target exists (`false`
/// gives a `semantic.relation.target-unknown` issue naming the target) and
/// the answer at `2r + 2` whether the relation is permitted (`false` gives
/// a `semantic.relation.not-permitted` issue naming the concept). When
/// every answer is `true` there is no issue.
pub proof fn law_semantic_answers(name: Seq<char>, sem: SemView, answers: Seq<Answer>, r: int)
    ensures
        answer_at(answers, 0) == Ok::<bool, Seq<char>>(false) ==> field_semantic_issues(name, sem, answers).len() > 0
            && field_semantic_issues(name, sem, answers)[0].code == "semantic.concept.unknown"@ && field_semantic_issues(
            name,
            sem,
            answers,
        )[0].path == seq![SegView::Field(name)] && field_semantic_issues(name, sem, answers)[0].semantic_id == Some(
            sem.concept,
        ),
        answer_at(answers, 0) is Err ==> field_semantic_issues(name, sem, answers).len() > 0 && field_semantic_issues(
            name,
            sem,
            answers,
        )[0].code == "semantic.resolver.unavailable"@ && field_semantic_issues(name, sem, answers)[0].semantic_id
            == Some(sem.concept),
        0 <= r < sem.relations.len() && answer_at(answers, 2 * r + 1) == Ok::<bool, Seq<char>>(false) ==> has_sem_issue(
            field_semantic_issues(name, sem, answers),
            "semantic.relation.target-unknown"@,
            seq![SegView::Field(name)],
            sem.relations[r].1,
        ),
        0 <= r < sem.relations.len() && answer_at(answers, 2 * r + 2) == Ok::<bool, Seq<char>>(false) ==> has_sem_issue(
            field_semantic_issues(name, sem, answers),
            "semantic.relation.not-permitted"@,
            seq![SegView::Field(name)],
            sem.concept,
        ),
        (forall|j: int| 0 <= j < answers.len() ==> #[trigger] answers[j] == Ok::<bool, Seq<char>>(true))
            ==> field_semantic_issues(name, sem, answers).len() == 0,
{
    let path = seq![SegView::Field(name)];
    let head = existence_issues(
        answer_at(answers, 0),
        sem.concept,
        path,
        "semantic.concept.unknown"@,
        "field "@ + str_debug(name) + " references unknown ontology concept "@ + sem.concept,
    );
    let rel = relations_issues(name, sem, path, answers, sem.relations.len());
    let all = field_semantic_issues(name, sem, answers);
    assert(all == head + rel);
    if answer_at(answers, 0) == Ok::<bool, Seq<char>>(false) || answer_at(answers, 0) is Err {
        assert(all[0] == head[0]);
    }
    if 0 <= r < sem.relations.len() {
        lemma_relation_answers(name, sem, path, answers, sem.relations.len(), r);
        if answer_at(answers, 2 * r + 1) == Ok::<bool, Seq<char>>(false) {
            let i = choose|i: int|
                0 <= i < rel.len() && (#[trigger] rel[i]).code == "semantic.relation.target-unknown"@ && rel[i].path
                    == path && rel[i].semantic_id == Some(sem.relations[r].1);
            assert(all[head.len() + i] == rel[i]);
        }
        if answer_at(answers, 2 * r + 2) == Ok::<bool, Seq<char>>(false) {
            let i = choose|i: int|
                0 <= i < rel.len() && (#[trigger] rel[i]).code == "semantic.relation.not-permitted"@ && rel[i].path
                    == path && rel[i].semantic_id == Some(sem.concept);
            assert(all[head.len() + i] == rel[i]);
        }
    }
    if forall|j: int| 0 <= j < answers.len() ==> #[trigger] answers[j] == Ok::<bool, Seq<char>>(true) {
        lemma_all_true_no_issues(name, sem, path, answers, sem.relations.len());
    }
}

proof fn lemma_all_true_no_issues(name: Seq<char>, sem: SemView, path: Seq<SegView>, answers: Seq<Answer>, n: nat)
    requires
        forall|j: int| 0 <= j < answers.len() ==> #[trigger] answers[j] == Ok::<bool, Seq<char>>(true),
    ensures
        relations_issues(name, sem, path, answers, n).len() == 0,
    decreases n,
{
    if n > 0 && n <= sem.relations.len() {
        lemma_all_true_no_issues(name, sem, path, answers, (n - 1) as nat);
        assert(answer_at(answers, 2 * n - 1) == Ok::<bool, Seq<char>>(true));
        assert(answer_at(answers, 2 * n as int) == Ok::<bool, Seq<char>>(true));
    }
}

} // verus!
