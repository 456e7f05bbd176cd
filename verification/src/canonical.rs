//! Deterministic canonical form of a document under a schema.
use vstd::prelude::*;
use crate::document::{lemma_view_parts, DocView, Document};
use crate::errors::ErrorCode;
use crate::float_bits::{f64_is_zero, is_zero};
use crate::path::{path_text, Path};
use crate::schema::{Field, Schema, fields_view};
use crate::text::{chars_of, debug_str, push_str, str_debug, str_eq};

verus! {

/// `a` sorts strictly before `b`, character by character (for `char`
/// code points this is the same order as comparing UTF-8 bytes).
pub open spec fn seq_lt(a: Seq<char>, b: Seq<char>) -> bool
    decreases a.len(),
{
    if a.len() == 0 {
        b.len() > 0
    } else if b.len() == 0 {
        false
    } else if a[0] != b[0] {
        a[0] < b[0]
    } else {
        seq_lt(a.drop_first(), b.drop_first())
    }
}

pub proof fn lemma_seq_lt_irreflexive(a: Seq<char>)
    ensures
        !seq_lt(a, a),
    decreases a.len(),
{
    if a.len() > 0 {
        lemma_seq_lt_irreflexive(a.drop_first());
    }
}

pub proof fn lemma_seq_lt_transitive(a: Seq<char>, b: Seq<char>, c: Seq<char>)
    requires
        seq_lt(a, b),
        seq_lt(b, c),
    ensures
        seq_lt(a, c),
    decreases a.len(),
{
    if a.len() > 0 && b.len() > 0 && c.len() > 0 && a[0] == b[0] && b[0] == c[0] {
        lemma_seq_lt_transitive(a.drop_first(), b.drop_first(), c.drop_first());
    }
}

/// The position of the first occurrence of `k` in `order`.
pub open spec fn name_pos(order: Seq<Seq<char>>, k: Seq<char>) -> Option<nat>
    decreases order.len(),
{
    if order.len() == 0 {
        None
    } else if order[0] == k {
        Some(0)
    } else {
        match name_pos(order.drop_first(), k) {
            Some(i) => Some(i + 1),
            None => None,
        }
    }
}

pub proof fn lemma_name_pos(order: Seq<Seq<char>>, k: Seq<char>)
    ensures
        match name_pos(order, k) {
            Some(i) => i < order.len() && order[i as int] == k && forall|j: int| 0 <= j < i ==> order[j] != k,
            None => forall|j: int| 0 <= j < order.len() ==> order[j] != k,
        },
    decreases order.len(),
{
    if order.len() > 0 && order[0] != k {
        lemma_name_pos(order.drop_first(), k);
        assert forall|j: int| 1 <= j < order.len() implies order[j] == order.drop_first()[j - 1] by {}
    }
}

/// Whether key `a` sorts strictly before key `b`: with a field order, keys
/// it names come first, by position, and the others follow; every other
/// tie is broken character by character.
pub open spec fn key_less(a: Seq<char>, b: Seq<char>, order: Option<Seq<Seq<char>>>) -> bool {
    match order {
        None => seq_lt(a, b),
        Some(o) => match (name_pos(o, a), name_pos(o, b)) {
            (Some(ia), Some(ib)) => ia < ib || (ia == ib && seq_lt(a, b)),
            (Some(_), None) => true,
            (None, Some(_)) => false,
            (None, None) => seq_lt(a, b),
        },
    }
}

pub proof fn lemma_key_less_irreflexive(a: Seq<char>, order: Option<Seq<Seq<char>>>)
    ensures
        !key_less(a, a, order),
{
    lemma_seq_lt_irreflexive(a);
}

pub proof fn lemma_key_less_transitive(
    a: Seq<char>,
    b: Seq<char>,
    c: Seq<char>,
    order: Option<Seq<Seq<char>>>,
)
    requires
        key_less(a, b, order),
        key_less(b, c, order),
    ensures
        key_less(a, c, order),
{
    match order {
        None => lemma_seq_lt_transitive(a, b, c),
        Some(o) => {
            if seq_lt(a, b) && seq_lt(b, c) {
                lemma_seq_lt_transitive(a, b, c);
            }
        },
    }
}

/// `-0.0` collapses to `0.0`; every other double is kept.
pub open spec fn normalize_float(f: u64) -> u64 {
    if f64_is_zero(f) {
        0
    } else {
        f
    }
}

/// Inserts `e` before the first entry whose key sorts strictly after its
/// own, after every entry with an equal key.
pub open spec fn insert_entry(
    r: Seq<(Seq<char>, DocView)>,
    e: (Seq<char>, DocView),
    order: Option<Seq<Seq<char>>>,
) -> Seq<(Seq<char>, DocView)>
    decreases r.len(),
{
    if r.len() == 0 {
        seq![e]
    } else if key_less(e.0, r[0].0, order) {
        seq![e] + r
    } else {
        seq![r[0]] + insert_entry(r.drop_first(), e, order)
    }
}

/// The stable sort of `es` by key: equal keys keep their relative order.
pub open spec fn sort_entries(es: Seq<(Seq<char>, DocView)>, order: Option<Seq<Seq<char>>>) -> Seq<
    (Seq<char>, DocView),
>
    decreases es.len(),
{
    if es.len() == 0 {
        es
    } else {
        insert_entry(sort_entries(es.drop_last(), order), es.last(), order)
    }
}

/// The canonical form of a document tree. A map's entries are canonicalised
/// (with no field order below the top) and stably sorted by key; lists keep
/// their order; `-0.0` becomes `0.0`; everything else is kept.
pub open spec fn canon_view(d: DocView, order: Option<Seq<Seq<char>>>) -> DocView
    decreases d, 0nat,
{
    match d {
        DocView::Float(f) => DocView::Float(normalize_float(f)),
        DocView::List(items) => DocView::List(canon_items(items, items.len())),
        DocView::Mapping(es) => DocView::Mapping(sort_entries(canon_entries_n(es, es.len()), order)),
        _ => d,
    }
}

/// The first `n` items, each canonicalised.
pub open spec fn canon_items(items: Seq<DocView>, n: nat) -> Seq<DocView>
    decreases items, n,
{
    if n == 0 || n > items.len() {
        Seq::empty()
    } else {
        proof {
            assert(decreases_to!(items => items[n - 1]));
        }
        canon_items(items, (n - 1) as nat).push(canon_view(items[n - 1], None))
    }
}

/// The first `n` entries, each with its value canonicalised.
pub open spec fn canon_entries_n(es: Seq<(Seq<char>, DocView)>, n: nat) -> Seq<(Seq<char>, DocView)>
    decreases es, n,
{
    if n == 0 || n > es.len() {
        Seq::empty()
    } else {
        proof {
            assert(decreases_to!(es => es[n - 1]));
            assert(decreases_to!(es[n - 1] => es[n - 1].1));
        }
        canon_entries_n(es, (n - 1) as nat).push((es[n - 1].0, canon_view(es[n - 1].1, None)))
    }
}

/// Each entry with its value canonicalised (no field order).
pub open spec fn canon_entries(es: Seq<(Seq<char>, DocView)>) -> Seq<(Seq<char>, DocView)> {
    canon_entries_n(es, es.len())
}

pub proof fn lemma_canon_items(items: Seq<DocView>, n: nat)
    requires
        n <= items.len(),
    ensures
        canon_items(items, n).len() == n,
        forall|i: int| 0 <= i < n ==> #[trigger] canon_items(items, n)[i] == canon_view(items[i], None),
    decreases n,
{
    if n > 0 {
        lemma_canon_items(items, (n - 1) as nat);
    }
}

pub proof fn lemma_canon_entries(es: Seq<(Seq<char>, DocView)>, n: nat)
    requires
        n <= es.len(),
    ensures
        canon_entries_n(es, n).len() == n,
        forall|i: int|
            0 <= i < n ==> #[trigger] canon_entries_n(es, n)[i] == (es[i].0, canon_view(es[i].1, None)),
    decreases n,
{
    if n > 0 {
        lemma_canon_entries(es, (n - 1) as nat);
    }
}

/// The view of exec map entries.
pub open spec fn entries_view(v: Seq<(String, Document)>) -> Seq<(Seq<char>, DocView)> {
    v.map_values(|e: (String, Document)| (e.0@, e.1@))
}

/// The views of a list of names.
pub open spec fn names_view(v: Seq<String>) -> Seq<Seq<char>> {
    v.map_values(|s: String| s@)
}

/// The field order a name list gives, if any.
pub open spec fn order_view(o: Option<&Vec<String>>) -> Option<Seq<Seq<char>>> {
    match o {
        Some(v) => Some(names_view(v@)),
        None => None,
    }
}

fn chars_lt(a: &[char], b: &[char]) -> (r: bool)
    ensures
        r == seq_lt(a@, b@),
{
    let mut i: usize = 0;
    proof {
        assert(a@.subrange(0, a@.len() as int) =~= a@);
        assert(b@.subrange(0, b@.len() as int) =~= b@);
        assert(a@.subrange(0, 0) =~= b@.subrange(0, 0));
    }
    while i < a.len() && i < b.len() && a[i] == b[i]
        invariant
            i <= a@.len(),
            i <= b@.len(),
            a@.subrange(0, i as int) == b@.subrange(0, i as int),
            seq_lt(a@, b@) == seq_lt(a@.subrange(i as int, a@.len() as int), b@.subrange(i as int, b@.len() as int)),
        decreases a@.len() - i,
    {
        proof {
            let sa = a@.subrange(i as int, a@.len() as int);
            let sb = b@.subrange(i as int, b@.len() as int);
            assert(sa.drop_first() =~= a@.subrange(i + 1, a@.len() as int));
            assert(sb.drop_first() =~= b@.subrange(i + 1, b@.len() as int));
            assert(a@.subrange(0, i + 1) =~= a@.subrange(0, i as int).push(a@[i as int]));
            assert(b@.subrange(0, i + 1) =~= b@.subrange(0, i as int).push(b@[i as int]));
        }
        i = i + 1;
    }
    proof {
        assert(a@.subrange(0, a@.len() as int) =~= a@);
        assert(b@.subrange(0, b@.len() as int) =~= b@);
    }
    if i == a.len() {
        i < b.len()
    } else if i == b.len() {
        false
    } else {
        a[i] < b[i]
    }
}

proof fn lemma_name_pos_at(order: Seq<Seq<char>>, k: Seq<char>, i: int)
    requires
        0 <= i < order.len(),
        order[i] == k,
        forall|j: int| 0 <= j < i ==> order[j] != k,
    ensures
        name_pos(order, k) == Some(i as nat),
    decreases i,
{
    if i > 0 {
        let t = order.drop_first();
        assert forall|j: int| 0 <= j < i - 1 implies t[j] != k by {
            assert(t[j] == order[j + 1]);
        }
        assert(order[0] != k);
        lemma_name_pos_at(t, k, i - 1);
    }
}

proof fn lemma_name_pos_none(order: Seq<Seq<char>>, k: Seq<char>)
    requires
        forall|j: int| 0 <= j < order.len() ==> order[j] != k,
    ensures
        name_pos(order, k) is None,
    decreases order.len(),
{
    if order.len() > 0 {
        let t = order.drop_first();
        assert forall|j: int| 0 <= j < t.len() implies t[j] != k by {
            assert(t[j] == order[j + 1]);
        }
        lemma_name_pos_none(t, k);
    }
}

/// Whether `a` sorts strictly before `b`, character by character.
pub fn str_lt(a: &str, b: &str) -> (r: bool)
    ensures
        r == seq_lt(a@, b@),
{
    let ac = chars_of(a);
    let bc = chars_of(b);
    chars_lt(ac.as_slice(), bc.as_slice())
}

fn find_name(order: &Vec<String>, k: &str) -> (r: Option<usize>)
    ensures
        match name_pos(names_view(order@), k@) {
            Some(p) => r matches Some(x) && x as nat == p,
            None => r is None,
        },
{
    let mut i: usize = 0;
    while i < order.len()
        invariant
            i <= order@.len(),
            forall|j: int| 0 <= j < i ==> names_view(order@)[j] != k@,
        decreases order@.len() - i,
    {
        proof {
            assert(names_view(order@)[i as int] == order@[i as int]@);
        }
        if str_eq(order[i].as_str(), k) {
            proof {
                lemma_name_pos_at(names_view(order@), k@, i as int);
            }
            return Some(i);
        }
        i = i + 1;
    }
    proof {
        lemma_name_pos_none(names_view(order@), k@);
    }
    None
}

fn keys_less(a: &str, b: &str, order: Option<&Vec<String>>) -> (r: bool)
    ensures
        r == key_less(a@, b@, order_view(order)),
{
    let ac = chars_of(a);
    let bc = chars_of(b);
    let asl = ac.as_slice();
    let bsl = bc.as_slice();
    match order {
        None => chars_lt(asl, bsl),
        Some(o) => {
            let pa = find_name(o, a);
            let pb = find_name(o, b);
            match (pa, pb) {
                (Some(ia), Some(ib)) => ia < ib || (ia == ib && chars_lt(asl, bsl)),
                (Some(_), None) => true,
                (None, Some(_)) => false,
                (None, None) => chars_lt(asl, bsl),
            }
        },
    }
}

/// `insert_entry` places the new entry at the first position whose key
/// sorts strictly after it.
proof fn lemma_insert_entry_at(
    r: Seq<(Seq<char>, DocView)>,
    e: (Seq<char>, DocView),
    order: Option<Seq<Seq<char>>>,
    p: int,
)
    requires
        0 <= p <= r.len(),
        forall|j: int| 0 <= j < p ==> !key_less(e.0, #[trigger] r[j].0, order),
        p == r.len() || key_less(e.0, r[p].0, order),
    ensures
        insert_entry(r, e, order) == r.insert(p, e),
    decreases r.len(),
{
    if r.len() == 0 {
        assert(r.insert(p, e) =~= seq![e]);
    } else if p == 0 {
        assert(r.insert(p, e) =~= seq![e] + r);
    } else {
        let t = r.drop_first();
        assert forall|j: int| 0 <= j < p - 1 implies !key_less(e.0, #[trigger] t[j].0, order) by {
            assert(t[j] == r[j + 1]);
        }
        if p < r.len() {
            assert(t[p - 1] == r[p]);
        }
        lemma_insert_entry_at(t, e, order, p - 1);
        assert(r.insert(p, e) =~= seq![r[0]] + t.insert(p - 1, e));
    }
}

/// Inserts `e` into the sorted list `sorted` as `insert_entry` does.
fn insert_sorted(sorted: &mut Vec<(String, Document)>, e: (String, Document), order: Option<&Vec<String>>)
    ensures
        entries_view(final(sorted)@) == insert_entry(entries_view(old(sorted)@), (e.0@, e.1@), order_view(order)),
{
    let ghost ev = entries_view(sorted@);
    let mut p: usize = 0;
    while p < sorted.len() && !keys_less(e.0.as_str(), sorted[p].0.as_str(), order)
        invariant
            p <= sorted@.len(),
            ev == entries_view(sorted@),
            forall|j: int| 0 <= j < p ==> !key_less(e.0@, #[trigger] ev[j].0, order_view(order)),
        decreases sorted@.len() - p,
    {
        p = p + 1;
    }
    proof {
        lemma_insert_entry_at(ev, (e.0@, e.1@), order_view(order), p as int);
    }
    sorted.insert(p, e);
    proof {
        assert(entries_view(sorted@) =~= ev.insert(p as int, (e.0@, e.1@)));
    }
}

/// Copies the names of a schema's fields, in declaration order.
fn field_names_of(fields: &[Field]) -> (r: Vec<String>)
    ensures
        names_view(r@) == fields_view(fields@).map_values(|f: crate::schema::FieldView| f.name),
{
    let ghost t = fields_view(fields@).map_values(|f: crate::schema::FieldView| f.name);
    let mut v: Vec<String> = Vec::new();
    let mut i: usize = 0;
    while i < fields.len()
        invariant
            i <= fields@.len(),
            t == fields_view(fields@).map_values(|f: crate::schema::FieldView| f.name),
            v@.len() == i,
            forall|j: int| 0 <= j < i ==> #[trigger] v@[j]@ == t[j],
        decreases fields@.len() - i,
    {
        let nm = fields[i].name().to_string();
        proof {
            assert(fields_view(fields@)[i as int] == fields@[i as int]@);
            assert(nm@ == t[i as int]);
        }
        v.push(nm);
        i = i + 1;
    }
    proof {
        assert(names_view(v@) =~= t);
    }
    v
}

/// The canonical form of `doc` under the field order `order`.
pub fn canonicalize_value(doc: &Document, order: Option<&Vec<String>>) -> (r: Document)
    ensures
        r@ == canon_view(doc@, order_view(order)),
    decreases doc,
{
    proof {
        lemma_view_parts(*doc);
        if doc@ is List {
            lemma_canon_items(doc@->List_0, doc@->List_0.len());
        }
        if doc@ is Mapping {
            lemma_canon_entries(doc@->Mapping_0, doc@->Mapping_0.len());
        }
    }
    match doc {
        Document::Null => Document::Null,
        Document::Bool(b) => Document::Bool(*b),
        Document::Integer(i) => Document::Integer(*i),
        Document::Float(f) => Document::Float(if is_zero(*f) {
            0
        } else {
            *f
        }),
        Document::String(s) => Document::String(s.clone()),
        Document::Bytes(b) => Document::Bytes(b.clone()),
        Document::List(items) => {
            let ghost iv = doc@->List_0;
            let mut out: Vec<Document> = Vec::new();
            let mut i: usize = 0;
            while i < items.len()
                invariant
                    i <= items@.len(),
                    *doc == Document::List(*items),
                    iv.len() == items@.len(),
                    forall|j: int| 0 <= j < iv.len() ==> #[trigger] iv[j] == items@[j]@,
                    out@.len() == i,
                    forall|j: int| 0 <= j < i ==> #[trigger] out@[j]@ == canon_view(iv[j], None),
                decreases items@.len() - i,
            {
                proof {
                    assert(decreases_to!(*doc => doc->List_0));
                    assert(decreases_to!(*items => items@));
                    assert(decreases_to!(items@ => items@[i as int]));
                }
                let c = canonicalize_value(&items[i], None);
                out.push(c);
                i = i + 1;
            }
            let r = Document::List(out);
            proof {
                lemma_view_parts(r);
                assert(r@->List_0 =~= canon_view(doc@, order_view(order))->List_0);
            }
            r
        },
        Document::Mapping(es) => {
            let ghost ev = doc@->Mapping_0;
            let ghost ce = canon_entries(ev);
            let mut sorted: Vec<(String, Document)> = Vec::new();
            let mut i: usize = 0;
            proof {
                assert(ce.take(0) =~= Seq::<(Seq<char>, DocView)>::empty());
                assert(entries_view(sorted@) =~= Seq::<(Seq<char>, DocView)>::empty());
            }
            while i < es.len()
                invariant
                    i <= es@.len(),
                    *doc == Document::Mapping(*es),
                    ev.len() == es@.len(),
                    forall|j: int| 0 <= j < ev.len() ==> #[trigger] ev[j] == (es@[j].0@, es@[j].1@),
                    ce == canon_entries(ev),
                    ce.len() == ev.len(),
                    forall|j: int| 0 <= j < ev.len() ==> #[trigger] ce[j] == (ev[j].0, canon_view(ev[j].1, None)),
                    entries_view(sorted@) == sort_entries(ce.take(i as int), order_view(order)),
                decreases es@.len() - i,
            {
                proof {
                    assert(decreases_to!(*doc => doc->Mapping_0));
                    assert(decreases_to!(*es => es@));
                    assert(decreases_to!(es@ => es@[i as int]));
                    assert(decreases_to!(es@[i as int] => es@[i as int].1));
                }
                let k = es[i].0.clone();
                let v = canonicalize_value(&es[i].1, None);
                proof {
                    let t = ce.take(i as int + 1);
                    assert(t.drop_last() =~= ce.take(i as int));
                    assert(t.last() == (k@, v@));
                }
                insert_sorted(&mut sorted, (k, v), order);
                i = i + 1;
            }
            proof {
                assert(ce.take(ce.len() as int) =~= ce);
            }
            let r = Document::Mapping(sorted);
            proof {
                lemma_view_parts(r);
                assert(r@->Mapping_0 =~= entries_view(sorted@));
            }
            r
        },
    }
}

/// Failures of canonical processing.
#[derive(Debug, PartialEq, Eq)]
pub enum CanonicalisationError {
    Malformed { path: Path, reason: String },
    InvalidHashHex { input: String },
}

impl ErrorCode for CanonicalisationError {
    open spec fn code_spec(&self) -> Seq<char> {
        match self {
            CanonicalisationError::Malformed { .. } => "canonical.document.malformed"@,
            CanonicalisationError::InvalidHashHex { .. } => "canonical.hash.invalid-hex"@,
        }
    }

    fn code(&self) -> (r: &'static str) {
        match self {
            CanonicalisationError::Malformed { .. } => "canonical.document.malformed",
            CanonicalisationError::InvalidHashHex { .. } => "canonical.hash.invalid-hex",
        }
    }
}

impl CanonicalisationError {
    pub open spec fn message_spec(&self) -> Seq<char> {
        match self {
            CanonicalisationError::Malformed { path, reason } => "cannot canonicalize: "@ + reason@ + " at "@
                + path_text(path@),
            CanonicalisationError::InvalidHashHex { input } => "invalid hash hex string "@ + str_debug(input@),
        }
    }

    /// The human-readable message of this error.
    pub fn message(&self) -> (r: String)
        ensures
            r@ == self.message_spec(),
    {
        let mut r = String::new();
        match self {
            CanonicalisationError::Malformed { path, reason } => {
                push_str(&mut r, "cannot canonicalize: ");
                push_str(&mut r, reason.as_str());
                push_str(&mut r, " at ");
                let p = path.to_string();
                push_str(&mut r, p.as_str());
            },
            CanonicalisationError::InvalidHashHex { input } => {
                push_str(&mut r, "invalid hash hex string ");
                let d = debug_str(input.as_str());
                push_str(&mut r, d.as_str());
            },
        }
        proof {
            assert(r@ =~= self.message_spec());
        }
        r
    }
}

/// The field order a schema gives to the top level of a document.
pub open spec fn schema_order(schema: Schema) -> Seq<Seq<char>> {
    schema.fields_spec().map_values(|f: crate::schema::FieldView| f.name)
}

/// The canonical form of `doc` under `schema`: the top-level map's keys
/// that the schema declares come first, in declaration order, then the
/// others; nested maps are ordered by key; duplicate keys keep their
/// relative order; `-0.0` becomes `0.0`; lists, strings and explicit nulls
/// are kept. Never fails.
pub fn canonicalize(schema: &Schema, doc: &Document) -> (r: Result<Document, CanonicalisationError>)
    ensures
        r matches Ok(d) && d@ == canon_view(doc@, Some(schema_order(*schema))),
{
    let names = field_names_of(schema.fields());
    Ok(canonicalize_value(doc, Some(&names)))
}

/// The entries are in key order: no entry sorts strictly before an earlier
/// one.
pub open spec fn entries_sorted(es: Seq<(Seq<char>, DocView)>, order: Option<Seq<Seq<char>>>) -> bool {
    forall|i: int, j: int| 0 <= i < j < es.len() ==> !key_less(#[trigger] es[j].0, #[trigger] es[i].0, order)
}

proof fn lemma_insert_entry_sorted(
    r: Seq<(Seq<char>, DocView)>,
    e: (Seq<char>, DocView),
    order: Option<Seq<Seq<char>>>,
)
    requires
        entries_sorted(r, order),
    ensures
        entries_sorted(insert_entry(r, e, order), order),
        insert_entry(r, e, order).len() == r.len() + 1,
        forall|k: int|
            0 <= k < insert_entry(r, e, order).len() ==> #[trigger] insert_entry(r, e, order)[k] == e
                || r.contains(insert_entry(r, e, order)[k]),
    decreases r.len(),
{
    let res = insert_entry(r, e, order);
    if r.len() == 0 {
    } else if key_less(e.0, r[0].0, order) {
        assert forall|i: int, j: int| 0 <= i < j < res.len() implies !key_less(
            #[trigger] res[j].0,
            #[trigger] res[i].0,
            order,
        ) by {
            if i == 0 {
                if key_less(res[j].0, e.0, order) {
                    lemma_key_less_transitive(res[j].0, e.0, r[0].0, order);
                    if j == 1 {
                        lemma_key_less_irreflexive(r[0].0, order);
                    } else {
                        assert(res[j] == r[j - 1]);
                    }
                }
            } else {
                assert(res[i] == r[i - 1]);
                assert(res[j] == r[j - 1]);
            }
        }
        assert forall|k: int| 0 <= k < res.len() implies #[trigger] res[k] == e || r.contains(res[k]) by {
            if k > 0 {
                assert(res[k] == r[k - 1]);
            }
        }
    } else {
        let t = r.drop_first();
        assert(entries_sorted(t, order)) by {
            assert forall|i: int, j: int| 0 <= i < j < t.len() implies !key_less(
                #[trigger] t[j].0,
                #[trigger] t[i].0,
                order,
            ) by {
                assert(t[i] == r[i + 1]);
                assert(t[j] == r[j + 1]);
            }
        }
        lemma_insert_entry_sorted(t, e, order);
        let tail = insert_entry(t, e, order);
        assert(res == seq![r[0]] + tail);
        assert forall|i: int, j: int| 0 <= i < j < res.len() implies !key_less(
            #[trigger] res[j].0,
            #[trigger] res[i].0,
            order,
        ) by {
            if i == 0 {
                assert(res[j] == tail[j - 1]);
                if tail[j - 1] != e {
                    assert(t.contains(tail[j - 1]));
                    let m = choose|m: int| 0 <= m < t.len() && t[m] == tail[j - 1];
                    assert(t[m] == r[m + 1]);
                }
            } else {
                assert(res[i] == tail[i - 1]);
                assert(res[j] == tail[j - 1]);
            }
        }
        assert forall|k: int| 0 <= k < res.len() implies #[trigger] res[k] == e || r.contains(res[k]) by {
            if k == 0 {
                assert(r[0] == res[0]);
            } else {
                assert(res[k] == tail[k - 1]);
                if tail[k - 1] != e {
                    let m = choose|m: int| 0 <= m < t.len() && t[m] == tail[k - 1];
                    assert(t[m] == r[m + 1]);
                }
            }
        }
    }
}

/// `sort_entries` gives entries in key order.
pub proof fn lemma_sort_entries_sorted(es: Seq<(Seq<char>, DocView)>, order: Option<Seq<Seq<char>>>)
    ensures
        entries_sorted(sort_entries(es, order), order),
        sort_entries(es, order).len() == es.len(),
    decreases es.len(),
{
    if es.len() > 0 {
        lemma_sort_entries_sorted(es.drop_last(), order);
        lemma_insert_entry_sorted(sort_entries(es.drop_last(), order), es.last(), order);
    }
}

/// Sorting entries that are already in key order changes nothing.
pub proof fn lemma_sort_sorted_is_identity(es: Seq<(Seq<char>, DocView)>, order: Option<Seq<Seq<char>>>)
    requires
        entries_sorted(es, order),
    ensures
        sort_entries(es, order) == es,
    decreases es.len(),
{
    if es.len() > 0 {
        let d = es.drop_last();
        assert(entries_sorted(d, order)) by {
            assert forall|i: int, j: int| 0 <= i < j < d.len() implies !key_less(
                #[trigger] d[j].0,
                #[trigger] d[i].0,
                order,
            ) by {
                assert(d[i] == es[i]);
                assert(d[j] == es[j]);
            }
        }
        lemma_sort_sorted_is_identity(d, order);
        assert forall|j: int| 0 <= j < d.len() implies !key_less(es.last().0, #[trigger] d[j].0, order) by {
            assert(d[j] == es[j]);
        }
        lemma_insert_entry_at(d, es.last(), order, d.len() as int);
        assert(d.insert(d.len() as int, es.last()) =~= es);
    }
}

/// Canonicalising values keeps every key, so it commutes with inserting.
proof fn lemma_canon_entries_insert(
    r: Seq<(Seq<char>, DocView)>,
    e: (Seq<char>, DocView),
    order: Option<Seq<Seq<char>>>,
)
    ensures
        canon_entries(insert_entry(r, e, order)) == insert_entry(
            canon_entries(r),
            (e.0, canon_view(e.1, None)),
            order,
        ),
    decreases r.len(),
{
    let ce = (e.0, canon_view(e.1, None));
    let res = insert_entry(r, e, order);
    lemma_insert_entry_sorted_len(r, e, order);
    lemma_canon_entries(r, r.len());
    lemma_canon_entries(res, res.len());
    let cr = canon_entries(r);
    if r.len() == 0 {
        assert(canon_entries(res) =~= seq![ce]);
    } else if key_less(e.0, r[0].0, order) {
        assert(cr[0].0 == r[0].0);
        assert(canon_entries(res) =~= seq![ce] + cr);
    } else {
        let t = r.drop_first();
        lemma_canon_entries_insert(t, e, order);
        lemma_canon_entries(t, t.len());
        assert(cr[0].0 == r[0].0);
        assert(cr.drop_first() =~= canon_entries(t));
        let tail = insert_entry(t, e, order);
        lemma_insert_entry_sorted_len(t, e, order);
        lemma_canon_entries(tail, tail.len());
        assert(canon_entries(res) =~= seq![cr[0]] + canon_entries(tail));
    }
}

proof fn lemma_insert_entry_sorted_len(
    r: Seq<(Seq<char>, DocView)>,
    e: (Seq<char>, DocView),
    order: Option<Seq<Seq<char>>>,
)
    ensures
        insert_entry(r, e, order).len() == r.len() + 1,
    decreases r.len(),
{
    if r.len() > 0 && !key_less(e.0, r[0].0, order) {
        lemma_insert_entry_sorted_len(r.drop_first(), e, order);
    }
}

/// Canonicalising values commutes with sorting by key.
proof fn lemma_canon_entries_sort(es: Seq<(Seq<char>, DocView)>, order: Option<Seq<Seq<char>>>)
    ensures
        canon_entries(sort_entries(es, order)) == sort_entries(canon_entries(es), order),
    decreases es.len(),
{
    lemma_canon_entries(es, es.len());
    if es.len() == 0 {
        assert(canon_entries(es) =~= es);
    } else {
        let d = es.drop_last();
        lemma_canon_entries_sort(d, order);
        lemma_canon_entries_insert(sort_entries(d, order), es.last(), order);
        lemma_canon_entries(d, d.len());
        let c = canon_entries(es);
        assert(c.drop_last() =~= canon_entries(d));
        assert(c.last() == (es.last().0, canon_view(es.last().1, None)));
    }
}

/// Canonical form is idempotent: canonicalising a canonical document under
/// the same field order gives it back unchanged.
pub proof fn lemma_canon_idempotent(d: DocView, order: Option<Seq<Seq<char>>>)
    ensures
        canon_view(canon_view(d, order), order) == canon_view(d, order),
    decreases d,
{
    match d {
        DocView::Float(f) => {},
        DocView::List(items) => {
            let c = canon_items(items, items.len());
            lemma_canon_items(items, items.len());
            lemma_canon_items(c, c.len());
            assert forall|i: int| 0 <= i < c.len() implies #[trigger] canon_view(c[i], None) == c[i] by {
                assert(decreases_to!(d => items));
                assert(decreases_to!(items => items[i]));
                lemma_canon_idempotent(items[i], None);
            }
            assert(canon_items(c, c.len()) =~= c);
        },
        DocView::Mapping(es) => {
            let c = canon_entries(es);
            lemma_canon_entries(es, es.len());
            lemma_canon_entries(c, c.len());
            assert forall|i: int| 0 <= i < c.len() implies #[trigger] canon_entries(c)[i] == c[i] by {
                assert(decreases_to!(d => es));
                assert(decreases_to!(es => es[i]));
                assert(decreases_to!(es[i] => es[i].1));
                lemma_canon_idempotent(es[i].1, None);
            }
            assert(canon_entries(c) =~= c);
            let s1 = sort_entries(c, order);
            lemma_canon_entries_sort(c, order);
            lemma_sort_entries_sorted(c, order);
            lemma_sort_sorted_is_identity(s1, order);
        },
        _ => {},
    }
}

/// Law: `canonicalize(schema, canonicalize(schema, x)) == canonicalize(schema, x)`.
pub proof fn law_canonicalize_idempotent(schema: Schema, doc: DocView)
    ensures
        canon_view(canon_view(doc, Some(schema_order(schema))), Some(schema_order(schema))) == canon_view(
            doc,
            Some(schema_order(schema)),
        ),
{
    lemma_canon_idempotent(doc, Some(schema_order(schema)));
}

/// No two entries share a key.
pub open spec fn entry_keys_distinct(es: Seq<(Seq<char>, DocView)>) -> bool {
    forall|i: int, j: int| 0 <= i < j < es.len() ==> #[trigger] es[i].0 != #[trigger] es[j].0
}

/// `insert_entry` inserts its entry at some position.
proof fn lemma_insert_entry_pos(r: Seq<(Seq<char>, DocView)>, e: (Seq<char>, DocView), order: Option<Seq<Seq<char>>>) -> (p: int)
    ensures
        0 <= p <= r.len(),
        insert_entry(r, e, order) == r.insert(p, e),
    decreases r.len(),
{
    if r.len() == 0 {
        assert(r.insert(0, e) =~= seq![e]);
        0
    } else if key_less(e.0, r[0].0, order) {
        assert(r.insert(0, e) =~= seq![e] + r);
        0
    } else {
        let t = r.drop_first();
        let q = lemma_insert_entry_pos(t, e, order);
        assert(r.insert(q + 1, e) =~= seq![r[0]] + t.insert(q, e));
        q + 1
    }
}

/// Sorting keeps every entry, each as many times as it occurs, and keeps
/// keys distinct where they were.
proof fn lemma_sort_entries_permutes(es: Seq<(Seq<char>, DocView)>, order: Option<Seq<Seq<char>>>)
    ensures
        sort_entries(es, order).to_multiset() == es.to_multiset(),
        entry_keys_distinct(es) ==> entry_keys_distinct(sort_entries(es, order)),
    decreases es.len(),
{
    broadcast use vstd::seq_lib::group_to_multiset_ensures;

    if es.len() == 0 {
    } else {
        let d = es.drop_last();
        let e = es.last();
        lemma_sort_entries_permutes(d, order);
        let s0 = sort_entries(d, order);
        let p = lemma_insert_entry_pos(s0, e, order);
        let s = s0.insert(p, e);
        assert(es =~= d.push(e));
        assert(s.to_multiset() == s0.to_multiset().insert(e));
        assert(d.push(e).to_multiset() == d.to_multiset().insert(e));
        if entry_keys_distinct(es) {
            assert(entry_keys_distinct(d)) by {
                assert forall|i: int, j: int| 0 <= i < j < d.len() implies #[trigger] d[i].0 != #[trigger] d[j].0 by {
                    assert(d[i] == es[i]);
                    assert(d[j] == es[j]);
                }
            }
            assert forall|k: int| 0 <= k < s0.len() implies (#[trigger] s0[k]).0 != e.0 by {
                assert(s0.to_multiset().count(s0[k]) > 0);
                assert(d.contains(s0[k]));
                let q = choose|q: int| 0 <= q < d.len() && d[q] == s0[k];
                assert(es[q] == d[q]);
                assert(es[es.len() - 1] == e);
            }
            assert forall|i: int, j: int| 0 <= i < j < s.len() implies #[trigger] s[i].0 != #[trigger] s[j].0 by {
                if i < p && j < p {
                    assert(s[i] == s0[i] && s[j] == s0[j]);
                } else if i < p && j == p {
                    assert(s[i] == s0[i]);
                } else if i < p {
                    assert(s[i] == s0[i] && s[j] == s0[j - 1]);
                } else if i == p {
                    assert(s[j] == s0[j - 1]);
                } else {
                    assert(s[i] == s0[i - 1] && s[j] == s0[j - 1]);
                }
            }
        }
    }
}

proof fn lemma_seq_lt_total(a: Seq<char>, b: Seq<char>)
    requires
        a != b,
    ensures
        seq_lt(a, b) || seq_lt(b, a),
    decreases a.len(),
{
    if a.len() > 0 && b.len() > 0 && a[0] == b[0] {
        if a.drop_first() == b.drop_first() {
            assert(a =~= seq![a[0]] + a.drop_first());
            assert(b =~= seq![b[0]] + b.drop_first());
        }
        lemma_seq_lt_total(a.drop_first(), b.drop_first());
    } else if a.len() == 0 && b.len() == 0 {
        assert(a =~= b);
    }
}

proof fn lemma_key_less_total(a: Seq<char>, b: Seq<char>, order: Option<Seq<Seq<char>>>)
    requires
        a != b,
    ensures
        key_less(a, b, order) || key_less(b, a, order),
{
    lemma_seq_lt_total(a, b);
    if let Some(o) = order {
        lemma_name_pos(o, a);
        lemma_name_pos(o, b);
    }
}

/// Two key-ordered sequences holding the same entries, with distinct keys,
/// are the same sequence.
proof fn lemma_sorted_unique(s: Seq<(Seq<char>, DocView)>, t: Seq<(Seq<char>, DocView)>, order: Option<Seq<Seq<char>>>)
    requires
        entries_sorted(s, order),
        entries_sorted(t, order),
        s.to_multiset() == t.to_multiset(),
        entry_keys_distinct(s),
    ensures
        s == t,
    decreases s.len(),
{
    broadcast use vstd::seq_lib::group_to_multiset_ensures;

    assert(s.len() == s.to_multiset().len());
    assert(t.len() == t.to_multiset().len());
    if s.len() == 0 {
        assert(t.len() == 0);
        assert(s =~= t);
    } else {
        assert(t.len() == s.len());
        assert(t.to_multiset().count(s[0]) > 0);
        assert(s.to_multiset().count(t[0]) > 0);
        let j = choose|j: int| 0 <= j < t.len() && t[j] == s[0];
        let i = choose|i: int| 0 <= i < s.len() && s[i] == t[0];
        if s[0] != t[0] {
            assert(j > 0 && i > 0);
            assert(!key_less(t[j].0, t[0].0, order));
            assert(!key_less(s[i].0, s[0].0, order));
            if s[0].0 != t[0].0 {
                lemma_key_less_total(s[0].0, t[0].0, order);
            }
            assert(s[0].0 == s[i].0);
        }
        let s1 = s.remove(0);
        let t1 = t.remove(0);
        assert(s1.to_multiset() == s.to_multiset().remove(s[0]));
        assert(t1.to_multiset() == t.to_multiset().remove(t[0]));
        assert(entries_sorted(s1, order)) by {
            assert forall|a: int, b: int| 0 <= a < b < s1.len() implies !key_less(#[trigger] s1[b].0, #[trigger] s1[a].0, order) by {
                assert(s1[a] == s[a + 1] && s1[b] == s[b + 1]);
            }
        }
        assert(entries_sorted(t1, order)) by {
            assert forall|a: int, b: int| 0 <= a < b < t1.len() implies !key_less(#[trigger] t1[b].0, #[trigger] t1[a].0, order) by {
                assert(t1[a] == t[a + 1] && t1[b] == t[b + 1]);
            }
        }
        assert(entry_keys_distinct(s1)) by {
            assert forall|a: int, b: int| 0 <= a < b < s1.len() implies #[trigger] s1[a].0 != #[trigger] s1[b].0 by {
                assert(s1[a] == s[a + 1] && s1[b] == s[b + 1]);
            }
        }
        lemma_sorted_unique(s1, t1, order);
        assert(s =~= seq![s[0]] + s1);
        assert(t =~= seq![t[0]] + t1);
    }
}

/// Law: sorting a map's entries forgets the order they came in. Two lists
/// of entries holding the same entries, with no key twice, sort to the
/// same list; and sorting neither adds nor drops an entry.
pub proof fn law_sort_ignores_entry_order(
    es: Seq<(Seq<char>, DocView)>,
    ps: Seq<(Seq<char>, DocView)>,
    order: Option<Seq<Seq<char>>>,
)
    requires
        es.to_multiset() == ps.to_multiset(),
        entry_keys_distinct(es),
    ensures
        sort_entries(es, order).to_multiset() == es.to_multiset(),
        sort_entries(es, order) == sort_entries(ps, order),
{
    lemma_sort_entries_permutes(es, order);
    lemma_sort_entries_permutes(ps, order);
    lemma_sort_entries_sorted(es, order);
    lemma_sort_entries_sorted(ps, order);
    lemma_sorted_unique(sort_entries(es, order), sort_entries(ps, order), order);
}

/// Applying one function to two lists holding the same items gives two
/// lists holding the same items.
proof fn lemma_map_keeps_multiset<A, B>(s: Seq<A>, t: Seq<A>, f: spec_fn(A) -> B)
    requires
        s.to_multiset() == t.to_multiset(),
    ensures
        s.map_values(f).to_multiset() == t.map_values(f).to_multiset(),
    decreases s.len(),
{
    broadcast use vstd::seq_lib::group_to_multiset_ensures;

    assert(s.len() == s.to_multiset().len());
    assert(t.len() == t.to_multiset().len());
    if s.len() == 0 {
        assert(s.map_values(f) =~= t.map_values(f));
    } else {
        let x = s.last();
        assert(s.to_multiset().count(x) > 0);
        assert(t.contains(x));
        let j = choose|m: int| 0 <= m < t.len() && t[m] == #[trigger] s[s.len() - 1];
        let s1 = s.drop_last();
        let t1 = t.remove(j);
        assert(s =~= s1.push(x));
        assert(s1.push(x).to_multiset() == s1.to_multiset().insert(x));
        assert(t1.to_multiset() == t.to_multiset().remove(x));
        assert(s1.to_multiset() =~= t1.to_multiset());
        lemma_map_keeps_multiset(s1, t1, f);
        assert(s.map_values(f) =~= s1.map_values(f).push(f(x)));
        assert(s1.map_values(f).push(f(x)).to_multiset() == s1.map_values(f).to_multiset().insert(f(x)));
        assert(t.map_values(f) =~= t1.map_values(f).insert(j, f(x)));
        assert(t1.map_values(f).insert(j, f(x)).to_multiset() == t1.map_values(f).to_multiset().insert(f(x)));
    }
}

/// Canonicalising each entry's value, as a map of the entries.
proof fn lemma_canon_entries_map(es: Seq<(Seq<char>, DocView)>)
    ensures
        canon_entries(es) == es.map_values(|e: (Seq<char>, DocView)| (e.0, canon_view(e.1, None))),
{
    lemma_canon_entries(es, es.len());
    assert(canon_entries(es) =~= es.map_values(|e: (Seq<char>, DocView)| (e.0, canon_view(e.1, None))));
}

/// Law: the canonical form of a map does not depend on the order of its
/// entries. Two maps holding the same entries, with no key twice, have the
/// same canonical form, under any field order.
pub proof fn law_canonical_map_ignores_entry_order(
    es: Seq<(Seq<char>, DocView)>,
    ps: Seq<(Seq<char>, DocView)>,
    order: Option<Seq<Seq<char>>>,
)
    requires
        es.to_multiset() == ps.to_multiset(),
        entry_keys_distinct(es),
    ensures
        canon_view(DocView::Mapping(es), order) == canon_view(DocView::Mapping(ps), order),
{
    let f = |e: (Seq<char>, DocView)| (e.0, canon_view(e.1, None));
    lemma_canon_entries_map(es);
    lemma_canon_entries_map(ps);
    lemma_map_keeps_multiset(es, ps, f);
    let ce = canon_entries(es);
    assert(entry_keys_distinct(ce)) by {
        assert forall|i: int, j: int| 0 <= i < j < ce.len() implies #[trigger] ce[i].0 != #[trigger] ce[j].0 by {
            assert(ce[i].0 == es[i].0);
            assert(ce[j].0 == es[j].0);
        }
    }
    law_sort_ignores_entry_order(ce, canon_entries(ps), order);
}

/// Law: the canonical form forgets the sign of zero: `-0.0` and `0.0`
/// canonicalise alike, and every canonical double other than a zero is
/// the one given.
pub proof fn law_canonical_zero_sign(f: u64, order: Option<Seq<Seq<char>>>)
    ensures
        f64_is_zero(f) ==> canon_view(DocView::Float(f), order) == DocView::Float(0),
        !f64_is_zero(f) ==> canon_view(DocView::Float(f), order) == DocView::Float(f),
{
}

/// Two documents alike but for the order of map entries and the sign of
/// zero, anywhere in the tree: doubles equal or both zeros; lists of
/// pairwise alike items; maps with the same entries in the same order, or
/// with the same number of entries, no key twice on either side, and each
/// entry matched by an entry of the other with the same key and an alike
/// value; everything else equal.
pub open spec fn alike_up_to_order(a: DocView, b: DocView) -> bool
    decreases a,
{
    match a {
        DocView::Float(x) => b matches DocView::Float(y) && (x == y || (f64_is_zero(x) && f64_is_zero(y))),
        DocView::List(xs) => b matches DocView::List(ys) && xs.len() == ys.len() && forall|i: int|
            0 <= i < xs.len() ==> alike_up_to_order(#[trigger] xs[i], ys[i]),
        DocView::Mapping(es) => b matches DocView::Mapping(ps) && (es == ps || (es.len() == ps.len()
            && entry_keys_distinct(es) && entry_keys_distinct(ps) && forall|i: int|
            0 <= i < es.len() ==> exists|j: int|
                0 <= j < ps.len() && ps[j].0 == es[i].0 && alike_up_to_order(#[trigger] es[i].1, ps[j].1))),
        _ => a == b,
    }
}

/// Two lists of the same length, no key twice in either, where each entry
/// `s[i]` of the first occurs in the second at `f(i)`, hold the same
/// entries.
proof fn lemma_distinct_cover_multiset(
    s: Seq<(Seq<char>, DocView)>,
    t: Seq<(Seq<char>, DocView)>,
    f: spec_fn(int) -> int,
)
    requires
        s.len() == t.len(),
        entry_keys_distinct(s),
        entry_keys_distinct(t),
        forall|i: int| 0 <= i < s.len() ==> 0 <= #[trigger] f(i) < t.len() && t[f(i)] == s[i],
    ensures
        s.to_multiset() == t.to_multiset(),
    decreases s.len(),
{
    broadcast use vstd::seq_lib::group_to_multiset_ensures;

    if s.len() == 0 {
        assert(s =~= t);
    } else {
        let last = s.len() - 1;
        let x = s[last];
        let j = f(last);
        assert(0 <= j < t.len() && t[j] == x);
        let s1 = s.drop_last();
        let t1 = t.remove(j);
        let g = |i: int| if f(i) < j { f(i) } else { f(i) - 1 };
        assert forall|i: int| 0 <= i < s1.len() implies 0 <= #[trigger] g(i) < t1.len() && t1[g(i)] == s1[i] by {
            assert(s1[i] == s[i]);
            assert(0 <= f(i) < t.len() && t[f(i)] == s[i]);
            assert(s[i].0 != s[last].0);
            assert(f(i) != j);
            if f(i) < j {
                assert(t1[f(i)] == t[f(i)]);
            } else {
                assert(t1[f(i) - 1] == t[f(i)]);
            }
        }
        assert(entry_keys_distinct(s1)) by {
            assert forall|a: int, b: int| 0 <= a < b < s1.len() implies #[trigger] s1[a].0 != #[trigger] s1[b].0 by {
                assert(s1[a] == s[a] && s1[b] == s[b]);
            }
        }
        assert(entry_keys_distinct(t1)) by {
            assert forall|a: int, b: int| 0 <= a < b < t1.len() implies #[trigger] t1[a].0 != #[trigger] t1[b].0 by {
                let a0 = if a < j { a } else { a + 1 };
                let b0 = if b < j { b } else { b + 1 };
                assert(t1[a] == t[a0] && t1[b] == t[b0]);
            }
        }
        lemma_distinct_cover_multiset(s1, t1, g);
        assert(s =~= s1.push(x));
        assert(s1.push(x).to_multiset() == s1.to_multiset().insert(x));
        assert(t1.to_multiset() == t.to_multiset().remove(x));
        assert(t.to_multiset().count(x) > 0);
        assert(t.to_multiset() =~= t1.to_multiset().insert(x));
    }
}

/// Alike documents have the same canonical form.
proof fn lemma_canon_alike(a: DocView, b: DocView, order: Option<Seq<Seq<char>>>)
    requires
        alike_up_to_order(a, b),
    ensures
        canon_view(a, order) == canon_view(b, order),
    decreases a,
{
    match a {
        DocView::List(xs) => {
            let ys = b->List_0;
            lemma_canon_items(xs, xs.len());
            lemma_canon_items(ys, ys.len());
            assert forall|i: int| 0 <= i < xs.len() implies canon_view(#[trigger] xs[i], None) == canon_view(ys[i], None) by {
                assert(decreases_to!(a => xs));
                assert(decreases_to!(xs => xs[i]));
                lemma_canon_alike(xs[i], ys[i], None);
            }
            assert(canon_items(xs, xs.len()) =~= canon_items(ys, ys.len()));
        },
        DocView::Mapping(es) => {
            let ps = b->Mapping_0;
            if es == ps {
                assert(a == b);
            } else {
                lemma_canon_entries(es, es.len());
                lemma_canon_entries(ps, ps.len());
                let ce = canon_entries(es);
                let cp = canon_entries(ps);
                let f = |i: int|
                    choose|j: int| 0 <= j < ps.len() && ps[j].0 == es[i].0 && alike_up_to_order(es[i].1, ps[j].1);
                assert forall|i: int| 0 <= i < ce.len() implies 0 <= #[trigger] f(i) < cp.len() && cp[f(i)] == ce[i] by {
                    assert(exists|j: int|
                        0 <= j < ps.len() && ps[j].0 == es[i].0 && alike_up_to_order(#[trigger] es[i].1, ps[j].1));
                    let j = f(i);
                    assert(alike_up_to_order(es[i].1, ps[j].1));
                    assert(decreases_to!(a => es));
                    assert(decreases_to!(es => es[i]));
                    assert(decreases_to!(es[i] => es[i].1));
                    lemma_canon_alike(es[i].1, ps[j].1, None);
                    assert(cp[j] == ce[i]);
                }
                assert(entry_keys_distinct(ce)) by {
                    assert forall|x: int, y: int| 0 <= x < y < ce.len() implies #[trigger] ce[x].0 != #[trigger] ce[y].0 by {
                        assert(ce[x].0 == es[x].0 && ce[y].0 == es[y].0);
                    }
                }
                assert(entry_keys_distinct(cp)) by {
                    assert forall|x: int, y: int| 0 <= x < y < cp.len() implies #[trigger] cp[x].0 != #[trigger] cp[y].0 by {
                        assert(cp[x].0 == ps[x].0 && cp[y].0 == ps[y].0);
                    }
                }
                lemma_distinct_cover_multiset(ce, cp, f);
                law_sort_ignores_entry_order(ce, cp, order);
            }
        },
        _ => {},
    }
}

/// Law: the canonical form forgets the order of map entries and the sign
/// of zero anywhere in the tree: documents alike but for these have the
/// same canonical form, under any field order.
pub proof fn law_canonical_ignores_order_and_zero_sign(a: DocView, b: DocView, order: Option<Seq<Seq<char>>>)
    requires
        alike_up_to_order(a, b),
    ensures
        canon_view(a, order) == canon_view(b, order),
{
    lemma_canon_alike(a, b, order);
}

/// `insert_entry` into key-ordered entries inserts at a position after
/// which no entry has the new entry's key.
proof fn lemma_insert_entry_pos_after(
    r: Seq<(Seq<char>, DocView)>,
    e: (Seq<char>, DocView),
    order: Option<Seq<Seq<char>>>,
) -> (p: int)
    requires
        entries_sorted(r, order),
    ensures
        0 <= p <= r.len(),
        insert_entry(r, e, order) == r.insert(p, e),
        forall|j: int| p <= j < r.len() ==> (#[trigger] r[j]).0 != e.0,
    decreases r.len(),
{
    if r.len() == 0 {
        assert(r.insert(0, e) =~= seq![e]);
        0
    } else if key_less(e.0, r[0].0, order) {
        assert(r.insert(0, e) =~= seq![e] + r);
        assert forall|j: int| 0 <= j < r.len() implies (#[trigger] r[j]).0 != e.0 by {
            if r[j].0 == e.0 {
                if j == 0 {
                    lemma_key_less_irreflexive(e.0, order);
                } else {
                    assert(!key_less(r[j].0, r[0].0, order));
                }
            }
        }
        0
    } else {
        let t = r.drop_first();
        assert(entries_sorted(t, order)) by {
            assert forall|a: int, b: int| 0 <= a < b < t.len() implies !key_less(#[trigger] t[b].0, #[trigger] t[a].0, order) by {
                assert(t[a] == r[a + 1] && t[b] == r[b + 1]);
            }
        }
        let q = lemma_insert_entry_pos_after(t, e, order);
        assert(r.insert(q + 1, e) =~= seq![r[0]] + t.insert(q, e));
        assert forall|j: int| q + 1 <= j < r.len() implies (#[trigger] r[j]).0 != e.0 by {
            assert(r[j] == t[j - 1]);
        }
        q + 1
    }
}

/// Sorting keeps the entries of each key in the order they came in.
proof fn lemma_sort_entries_stable(es: Seq<(Seq<char>, DocView)>, order: Option<Seq<Seq<char>>>, k: Seq<char>)
    ensures
        sort_entries(es, order).filter(|e: (Seq<char>, DocView)| e.0 == k) == es.filter(
            |e: (Seq<char>, DocView)| e.0 == k,
        ),
    decreases es.len(),
{
    let pred = |e: (Seq<char>, DocView)| e.0 == k;
    reveal(Seq::filter);
    if es.len() > 0 {
        let d = es.drop_last();
        let x = es.last();
        lemma_sort_entries_stable(d, order, k);
        lemma_sort_entries_sorted(d, order);
        let r = sort_entries(d, order);
        let p = lemma_insert_entry_pos_after(r, x, order);
        let pre = r.take(p);
        let post = r.skip(p);
        assert(r =~= pre + post);
        assert(r.insert(p, x) =~= pre + seq![x] + post);
        Seq::filter_distributes_over_add(pre, post, pred);
        Seq::filter_distributes_over_add(pre + seq![x], post, pred);
        Seq::filter_distributes_over_add(pre, seq![x], pred);
        assert(seq![x].drop_last() =~= Seq::<(Seq<char>, DocView)>::empty());
        if x.0 == k {
            assert forall|j: int| 0 <= j < post.len() implies !pred(#[trigger] post[j]) by {
                assert(post[j] == r[p + j]);
            }
            post.lemma_all_neg_filter_empty(pred);
            assert(seq![x].filter(pred) =~= seq![x]);
            assert(sort_entries(es, order).filter(pred) =~= r.filter(pred).push(x));
        } else {
            assert(!pred(x));
            assert(seq![x].last() == x);
            assert(seq![x].drop_last().filter(pred) =~= Seq::<(Seq<char>, DocView)>::empty());
            assert(seq![x].filter(pred) =~= Seq::<(Seq<char>, DocView)>::empty());
            assert(sort_entries(es, order).filter(pred) =~= r.filter(pred));
        }
    }
}

/// Law: the sort of a map's entries is stable: the entries of each key
/// come out in the order they came in.
pub proof fn law_sort_is_stable(es: Seq<(Seq<char>, DocView)>, order: Option<Seq<Seq<char>>>, k: Seq<char>)
    ensures
        sort_entries(es, order).filter(|e: (Seq<char>, DocView)| e.0 == k) == es.filter(
            |e: (Seq<char>, DocView)| e.0 == k,
        ),
{
    lemma_sort_entries_stable(es, order, k);
}

/// Law: the canonical form mirrors the document node by node. A double
/// keeps its value with `-0.0` made `0.0`; a list keeps its length and
/// order, each item canonicalised; a map keeps exactly its entries (none
/// added or dropped, `Null` values kept), each value canonicalised, in key
/// order (under the given field order at this level, plain key order
/// below); every other value is kept as it is.
pub proof fn law_canonical_mirrors(d: DocView, order: Option<Seq<Seq<char>>>)
    ensures
        match d {
            DocView::Float(f) => canon_view(d, order) == DocView::Float(normalize_float(f)),
            DocView::List(items) => canon_view(d, order) matches DocView::List(cs) && cs.len() == items.len()
                && forall|i: int| 0 <= i < items.len() ==> #[trigger] cs[i] == canon_view(items[i], None),
            DocView::Mapping(es) => canon_view(d, order) matches DocView::Mapping(cs) && cs.len() == es.len()
                && cs.to_multiset() == es.map_values(
                |e: (Seq<char>, DocView)| (e.0, canon_view(e.1, None)),
            ).to_multiset() && entries_sorted(cs, order),
            _ => canon_view(d, order) == d,
        },
{
    match d {
        DocView::List(items) => lemma_canon_items(items, items.len()),
        DocView::Mapping(es) => {
            lemma_canon_entries_map(es);
            lemma_canon_entries(es, es.len());
            lemma_sort_entries_permutes(canon_entries(es), order);
            lemma_sort_entries_sorted(canon_entries(es), order);
        },
        _ => {},
    }
}

} // verus!
