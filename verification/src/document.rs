//! The format-agnostic decoded value tree.
use vstd::prelude::*;
use crate::errors::ErrorCode;
use crate::float_bits::{eq as f64_equal, f64_eq};
use vstd::std_specs::cmp::PartialEqSpecImpl;
use crate::path::{path_text, Path};
use crate::text::{push_str, str_eq};

verus! {

/// A format-agnostic decoded value tree.
///
/// `Mapping` is a list of `(key, value)` entries, not a hash map: it keeps
/// the original key order and makes duplicate keys observable. A `Float`
/// holds the IEEE-754 binary64 bit pattern of the number.
#[derive(Debug)]
pub enum Document {
    Null,
    Bool(bool),
    Integer(i64),
    Float(u64),
    String(String),
    Bytes(Vec<u8>),
    List(Vec<Document>),
    Mapping(Vec<(String, Document)>),
}

/// The mathematical value of a `Document`.
pub enum DocView {
    Null,
    Bool(bool),
    Integer(int),
    Float(u64),
    String(Seq<char>),
    Bytes(Seq<u8>),
    List(Seq<DocView>),
    Mapping(Seq<(Seq<char>, DocView)>),
}

/// The mathematical value of a document tree.
pub open spec fn doc_view(d: Document) -> DocView
    decreases d,
{
    match d {
        Document::Null => DocView::Null,
        Document::Bool(b) => DocView::Bool(b),
        Document::Integer(i) => DocView::Integer(i as int),
        Document::Float(f) => DocView::Float(f),
        Document::String(s) => DocView::String(s@),
        Document::Bytes(b) => DocView::Bytes(b@),
        Document::List(items) => DocView::List(
            Seq::new(
                items@.len(),
                |i: int|
                    if 0 <= i < items@.len() {
                        proof {
                            assert(decreases_to!(d => items@[i]));
                        }
                        doc_view(items@[i])
                    } else {
                        DocView::Null
                    },
            ),
        ),
        Document::Mapping(es) => DocView::Mapping(
            Seq::new(
                es@.len(),
                |i: int|
                    if 0 <= i < es@.len() {
                        proof {
                            assert(decreases_to!(d => es@[i].1));
                        }
                        (es@[i].0@, doc_view(es@[i].1))
                    } else {
                        (Seq::empty(), DocView::Null)
                    },
            ),
        ),
    }
}

impl View for Document {
    type V = DocView;

    open spec fn view(&self) -> DocView {
        doc_view(*self)
    }
}

/// The name of a value's kind.
pub open spec fn kind_name_of(d: DocView) -> Seq<char> {
    match d {
        DocView::Null => "null"@,
        DocView::Bool(_) => "bool"@,
        DocView::Integer(_) => "integer"@,
        DocView::Float(_) => "float"@,
        DocView::String(_) => "string"@,
        DocView::Bytes(_) => "bytes"@,
        DocView::List(_) => "list"@,
        DocView::Mapping(_) => "map"@,
    }
}

/// The position of the first entry with key `k`.
pub open spec fn first_key_index(es: Seq<(Seq<char>, DocView)>, k: Seq<char>) -> Option<int>
    decreases es.len(),
{
    if es.len() == 0 {
        None
    } else if es[0].0 == k {
        Some(0)
    } else {
        match first_key_index(es.drop_first(), k) {
            Some(i) => Some(i + 1),
            None => None,
        }
    }
}

/// The value of the first entry with key `k`, if the value is a map.
pub open spec fn lookup(d: DocView, k: Seq<char>) -> Option<DocView> {
    match d {
        DocView::Mapping(es) => match first_key_index(es, k) {
            Some(i) => Some(es[i].1),
            None => None,
        },
        _ => None,
    }
}

pub proof fn lemma_first_key_index(es: Seq<(Seq<char>, DocView)>, k: Seq<char>)
    ensures
        match first_key_index(es, k) {
            Some(i) => 0 <= i < es.len() && es[i].0 == k && forall|j: int| 0 <= j < i ==> es[j].0 != k,
            None => forall|j: int| 0 <= j < es.len() ==> es[j].0 != k,
        },
    decreases es.len(),
{
    if es.len() > 0 && es[0].0 != k {
        lemma_first_key_index(es.drop_first(), k);
        match first_key_index(es.drop_first(), k) {
            Some(i) => {
                assert forall|j: int| 0 <= j < i + 1 implies es[j].0 != k by {
                    if j > 0 {
                        assert(es[j] == es.drop_first()[j - 1]);
                    }
                }
            },
            None => {
                assert forall|j: int| 0 <= j < es.len() implies es[j].0 != k by {
                    if j > 0 {
                        assert(es[j] == es.drop_first()[j - 1]);
                    }
                }
            },
        }
    }
}

/// The view of a list or map in terms of its elements.
pub proof fn lemma_view_parts(d: Document)
    ensures
        match d {
            Document::List(items) => d@ matches DocView::List(v) && v.len() == items@.len()
                && forall|j: int| 0 <= j < v.len() ==> #[trigger] v[j] == items@[j]@,
            Document::Mapping(es) => d@ matches DocView::Mapping(v) && v.len() == es@.len()
                && forall|j: int| 0 <= j < v.len() ==> #[trigger] v[j] == (es@[j].0@, es@[j].1@),
            _ => true,
        },
{
    match d {
        Document::List(items) => {
            let v = d@->List_0;
            assert forall|j: int| 0 <= j < v.len() implies #[trigger] v[j] == items@[j]@ by {}
        },
        Document::Mapping(es) => {
            let v = d@->Mapping_0;
            assert forall|j: int| 0 <= j < v.len() implies #[trigger] v[j] == (es@[j].0@, es@[j].1@) by {}
        },
        _ => {},
    }
}

/// Copies a list of documents.
fn clone_items(items: &Vec<Document>) -> (r: Vec<Document>)
    ensures
        r@.len() == items@.len(),
        forall|j: int| 0 <= j < items@.len() ==> #[trigger] r@[j]@ == items@[j]@,
    decreases items@, 0nat,
{
    let mut v: Vec<Document> = Vec::new();
    let mut i: usize = 0;
    while i < items.len()
        invariant
            i <= items@.len(),
            v@.len() == i,
            forall|j: int| 0 <= j < i ==> #[trigger] v@[j]@ == items@[j]@,
        decreases items@.len() - i,
    {
        proof {
            assert(decreases_to!(items@ => items@[i as int]));
        }
        v.push(items[i].copy());
        i = i + 1;
    }
    v
}

/// Copies a list of map entries.
fn clone_entries(es: &Vec<(String, Document)>) -> (r: Vec<(String, Document)>)
    ensures
        r@.len() == es@.len(),
        forall|j: int| 0 <= j < es@.len() ==> #[trigger] r@[j].0@ == es@[j].0@ && r@[j].1@ == es@[j].1@,
    decreases es@, 0nat,
{
    let mut v: Vec<(String, Document)> = Vec::new();
    let mut i: usize = 0;
    while i < es.len()
        invariant
            i <= es@.len(),
            v@.len() == i,
            forall|j: int| 0 <= j < i ==> #[trigger] v@[j].0@ == es@[j].0@ && v@[j].1@ == es@[j].1@,
        decreases es@.len() - i,
    {
        proof {
            assert(decreases_to!(es@ => es@[i as int]));
            assert(decreases_to!(es@[i as int] => es@[i as int].1));
        }
        let k = es[i].0.clone();
        let d = es[i].1.copy();
        let ghost before = v@;
        v.push((k, d));
        proof {
            assert forall|j: int| 0 <= j < i + 1 implies #[trigger] v@[j].0@ == es@[j].0@ && v@[j].1@ == es@[j].1@ by {
                if j < i {
                    assert(v@[j] == before[j]);
                }
            }
        }
        i = i + 1;
    }
    v
}

impl Document {
    /// An identical copy.
    pub fn copy(&self) -> (r: Document)
        ensures
            r@ == self@,
        decreases self, 1nat,
    {
        proof {
            lemma_view_parts(*self);
        }
        match self {
            Document::Null => Document::Null,
            Document::Bool(b) => Document::Bool(*b),
            Document::Integer(i) => Document::Integer(*i),
            Document::Float(f) => Document::Float(*f),
            Document::String(s) => Document::String(s.clone()),
            Document::Bytes(b) => Document::Bytes(b.clone()),
            Document::List(items) => {
                let r = Document::List(clone_items(items));
                proof {
                    lemma_view_parts(r);
                    assert(r@->List_0 =~= self@->List_0);
                }
                r
            },
            Document::Mapping(es) => {
                let r = Document::Mapping(clone_entries(es));
                proof {
                    lemma_view_parts(r);
                    assert(r@->Mapping_0 =~= self@->Mapping_0);
                }
                r
            },
        }
    }

    pub fn kind_name(&self) -> (r: &'static str)
        ensures
            r@ == kind_name_of(self@),
    {
        match self {
            Document::Null => "null",
            Document::Bool(_) => "bool",
            Document::Integer(_) => "integer",
            Document::Float(_) => "float",
            Document::String(_) => "string",
            Document::Bytes(_) => "bytes",
            Document::List(_) => "list",
            Document::Mapping(_) => "map",
        }
    }

    pub fn is_null(&self) -> (r: bool)
        ensures
            r == (self@ is Null),
    {
        match self {
            Document::Null => true,
            _ => false,
        }
    }

    pub fn as_map(&self) -> (r: Option<&[(String, Document)]>)
        ensures
            match self {
                Document::Mapping(es) => r matches Some(s) && s@ == es@,
                _ => r is None,
            },
    {
        match self {
            Document::Mapping(es) => Some(es.as_slice()),
            _ => None,
        }
    }

    pub fn as_list(&self) -> (r: Option<&[Document]>)
        ensures
            match self {
                Document::List(items) => r matches Some(s) && s@ == items@,
                _ => r is None,
            },
    {
        match self {
            Document::List(items) => Some(items.as_slice()),
            _ => None,
        }
    }

    /// The value of the first entry with the given key, if this is a map.
    pub fn get(&self, key: &str) -> (r: Option<&Document>)
        ensures
            match lookup(self@, key@) {
                Some(v) => r matches Some(d) && d@ == v,
                None => r is None,
            },
    {
        match self {
            Document::Mapping(es) => {
                proof {
                    lemma_view_parts(*self);
                    assert(self@->Mapping_0 =~= Seq::new(es@.len(), |j: int| (es@[j].0@, es@[j].1@)));
                }
                let mut i: usize = 0;
                while i < es.len()
                    invariant
                        i <= es@.len(),
                        self@ == DocView::Mapping(Seq::new(es@.len(), |j: int| (es@[j].0@, es@[j].1@))),
                        forall|j: int| 0 <= j < i ==> es@[j].0@ != key@,
                    decreases es@.len() - i,
                {
                    if str_eq(es[i].0.as_str(), key) {
                        proof {
                            let ev = Seq::new(es@.len(), |j: int| (es@[j].0@, es@[j].1@));
                            lemma_first_key_index(ev, key@);
                            match first_key_index(ev, key@) {
                                Some(k) => {
                                    if k < i {
                                        assert(ev[k].0 == es@[k].0@);
                                    } else if k > i {
                                        assert(ev[i as int].0 == key@);
                                    }
                                },
                                None => {
                                    assert(ev[i as int].0 == key@);
                                },
                            }
                        }
                        return Some(&es[i].1);
                    }
                    i = i + 1;
                }
                proof {
                    let ev = Seq::new(es@.len(), |j: int| (es@[j].0@, es@[j].1@));
                    lemma_first_key_index(ev, key@);
                    match first_key_index(ev, key@) {
                        Some(k) => {
                            assert(ev[k].0 == es@[k].0@);
                        },
                        None => {},
                    }
                }
                None
            },
            _ => None,
        }
    }
}

/// Whether two documents are equal as `==` compares them: a double by IEEE
/// `==` (a NaN equals nothing, and the two zeros are equal), everything
/// else by its value, lists and maps entry by entry in order.
pub open spec fn doc_eq(a: DocView, b: DocView) -> bool
    decreases a, 0nat,
{
    match a {
        DocView::Null => b is Null,
        DocView::Bool(x) => b matches DocView::Bool(y) && x == y,
        DocView::Integer(x) => b matches DocView::Integer(y) && x == y,
        DocView::Float(x) => b matches DocView::Float(y) && f64_eq(x, y),
        DocView::String(x) => b matches DocView::String(y) && x == y,
        DocView::Bytes(x) => b matches DocView::Bytes(y) && x == y,
        DocView::List(xs) => b matches DocView::List(ys) && xs.len() == ys.len() && items_eq(xs, ys, xs.len()),
        DocView::Mapping(xs) => b matches DocView::Mapping(ys) && xs.len() == ys.len() && entries_eq(
            xs,
            ys,
            xs.len(),
        ),
    }
}

/// The first `n` items of two lists are pairwise equal.
pub open spec fn items_eq(xs: Seq<DocView>, ys: Seq<DocView>, n: nat) -> bool
    decreases xs, n,
{
    if n == 0 || n > xs.len() || n > ys.len() {
        true
    } else {
        proof {
            assert(decreases_to!(xs => xs[n - 1]));
        }
        items_eq(xs, ys, (n - 1) as nat) && doc_eq(xs[n - 1], ys[n - 1])
    }
}

/// The first `n` entries of two maps have equal keys and equal values.
pub open spec fn entries_eq(xs: Seq<(Seq<char>, DocView)>, ys: Seq<(Seq<char>, DocView)>, n: nat) -> bool
    decreases xs, n,
{
    if n == 0 || n > xs.len() || n > ys.len() {
        true
    } else {
        proof {
            assert(decreases_to!(xs => xs[n - 1]));
            assert(decreases_to!(xs[n - 1] => xs[n - 1].1));
        }
        entries_eq(xs, ys, (n - 1) as nat) && xs[n - 1].0 == ys[n - 1].0 && doc_eq(xs[n - 1].1, ys[n - 1].1)
    }
}

fn bytes_equal(a: &Vec<u8>, b: &Vec<u8>) -> (r: bool)
    ensures
        r == (a@ == b@),
{
    if a.len() != b.len() {
        return false;
    }
    let mut i: usize = 0;
    while i < a.len()
        invariant
            i <= a@.len(),
            a@.len() == b@.len(),
            forall|j: int| 0 <= j < i ==> a@[j] == b@[j],
        decreases a@.len() - i,
    {
        if a[i] != b[i] {
            return false;
        }
        i = i + 1;
    }
    proof {
        assert(a@ =~= b@);
    }
    true
}

fn items_equal(xs: &Vec<Document>, ys: &Vec<Document>) -> (r: bool)
    requires
        xs@.len() == ys@.len(),
    ensures
        r == items_eq(xs@.map_values(|d: Document| d@), ys@.map_values(|d: Document| d@), xs@.len()),
    decreases xs@, 0nat,
{
    let ghost vx = xs@.map_values(|d: Document| d@);
    let ghost vy = ys@.map_values(|d: Document| d@);
    let mut i: usize = 0;
    while i < xs.len()
        invariant
            i <= xs@.len(),
            xs@.len() == ys@.len(),
            vx == xs@.map_values(|d: Document| d@),
            vy == ys@.map_values(|d: Document| d@),
            items_eq(vx, vy, i as nat),
        decreases xs@.len() - i,
    {
        proof {
            assert(decreases_to!(xs@ => xs@[i as int]));
        }
        if !doc_equal(&xs[i], &ys[i]) {
            proof {
                if items_eq(vx, vy, xs@.len()) {
                    lemma_items_eq_prefix(vx, vy, i as nat, xs@.len());
                }
            }
            return false;
        }
        i = i + 1;
    }
    true
}

/// Pairwise equality of a longer prefix implies it of a shorter one.
proof fn lemma_items_eq_prefix(xs: Seq<DocView>, ys: Seq<DocView>, k: nat, n: nat)
    requires
        k < n <= xs.len(),
        n <= ys.len(),
        items_eq(xs, ys, n),
    ensures
        doc_eq(xs[k as int], ys[k as int]),
    decreases n,
{
    if k < n - 1 {
        lemma_items_eq_prefix(xs, ys, k, (n - 1) as nat);
    }
}

proof fn lemma_entries_eq_prefix(xs: Seq<(Seq<char>, DocView)>, ys: Seq<(Seq<char>, DocView)>, k: nat, n: nat)
    requires
        k < n <= xs.len(),
        n <= ys.len(),
        entries_eq(xs, ys, n),
    ensures
        xs[k as int].0 == ys[k as int].0 && doc_eq(xs[k as int].1, ys[k as int].1),
    decreases n,
{
    if k < n - 1 {
        lemma_entries_eq_prefix(xs, ys, k, (n - 1) as nat);
    }
}

fn entries_equal(xs: &Vec<(String, Document)>, ys: &Vec<(String, Document)>) -> (r: bool)
    requires
        xs@.len() == ys@.len(),
    ensures
        r == entries_eq(
            xs@.map_values(|e: (String, Document)| (e.0@, e.1@)),
            ys@.map_values(|e: (String, Document)| (e.0@, e.1@)),
            xs@.len(),
        ),
    decreases xs@, 0nat,
{
    let ghost vx = xs@.map_values(|e: (String, Document)| (e.0@, e.1@));
    let ghost vy = ys@.map_values(|e: (String, Document)| (e.0@, e.1@));
    let mut i: usize = 0;
    while i < xs.len()
        invariant
            i <= xs@.len(),
            xs@.len() == ys@.len(),
            vx == xs@.map_values(|e: (String, Document)| (e.0@, e.1@)),
            vy == ys@.map_values(|e: (String, Document)| (e.0@, e.1@)),
            entries_eq(vx, vy, i as nat),
        decreases xs@.len() - i,
    {
        proof {
            assert(decreases_to!(xs@ => xs@[i as int]));
            assert(decreases_to!(xs@[i as int] => xs@[i as int].1));
        }
        if !str_eq(xs[i].0.as_str(), ys[i].0.as_str()) || !doc_equal(&xs[i].1, &ys[i].1) {
            proof {
                if entries_eq(vx, vy, xs@.len()) {
                    lemma_entries_eq_prefix(vx, vy, i as nat, xs@.len());
                }
            }
            return false;
        }
        i = i + 1;
    }
    true
}

/// `==` on documents, as `doc_eq` states it.
fn doc_equal(a: &Document, b: &Document) -> (r: bool)
    ensures
        r == doc_eq(a@, b@),
    decreases a, 1nat,
{
    proof {
        lemma_view_parts(*a);
        lemma_view_parts(*b);
    }
    match (a, b) {
        (Document::Null, Document::Null) => true,
        (Document::Bool(x), Document::Bool(y)) => *x == *y,
        (Document::Integer(x), Document::Integer(y)) => *x == *y,
        (Document::Float(x), Document::Float(y)) => f64_equal(*x, *y),
        (Document::String(x), Document::String(y)) => str_eq(x.as_str(), y.as_str()),
        (Document::Bytes(x), Document::Bytes(y)) => bytes_equal(x, y),
        (Document::List(xs), Document::List(ys)) => {
            if xs.len() != ys.len() {
                return false;
            }
            proof {
                assert(a@->List_0 =~= xs@.map_values(|d: Document| d@));
                assert(b@->List_0 =~= ys@.map_values(|d: Document| d@));
            }
            items_equal(xs, ys)
        },
        (Document::Mapping(xs), Document::Mapping(ys)) => {
            if xs.len() != ys.len() {
                return false;
            }
            proof {
                assert(a@->Mapping_0 =~= xs@.map_values(|e: (String, Document)| (e.0@, e.1@)));
                assert(b@->Mapping_0 =~= ys@.map_values(|e: (String, Document)| (e.0@, e.1@)));
            }
            entries_equal(xs, ys)
        },
        _ => false,
    }
}

impl PartialEq for Document {
    fn eq(&self, other: &Document) -> (r: bool) {
        doc_equal(self, other)
    }
}

impl PartialEqSpecImpl for Document {
    open spec fn obeys_eq_spec() -> bool {
        true
    }

    open spec fn eq_spec(&self, other: &Document) -> bool {
        doc_eq(self@, other@)
    }
}

/// Failures reading a document as a value of some other shape.
#[derive(Debug)]
pub enum ValueError {
    TypeMismatch { expected: &'static str, actual: &'static str, path: Path },
}

impl ErrorCode for ValueError {
    open spec fn code_spec(&self) -> Seq<char> {
        match self {
            ValueError::TypeMismatch { .. } => "value.type-mismatch"@,
        }
    }

    fn code(&self) -> (r: &'static str) {
        match self {
            ValueError::TypeMismatch { .. } => "value.type-mismatch",
        }
    }
}

impl ValueError {
    pub open spec fn message_spec(&self) -> Seq<char> {
        match self {
            ValueError::TypeMismatch { expected, actual, path } => "expected "@ + expected@ + ", found "@ + actual@
                + " at "@ + path_text(path@),
        }
    }

    /// The human-readable message: `expected E, found A at PATH`.
    pub fn message(&self) -> (r: String)
        ensures
            r@ == self.message_spec(),
    {
        match self {
            ValueError::TypeMismatch { expected, actual, path } => {
                let mut r = String::new();
                push_str(&mut r, "expected ");
                push_str(&mut r, expected);
                push_str(&mut r, ", found ");
                push_str(&mut r, actual);
                push_str(&mut r, " at ");
                push_str(&mut r, path.to_string().as_str());
                proof {
                    assert(r@ =~= self.message_spec());
                }
                r
            },
        }
    }
}

} // verus!
