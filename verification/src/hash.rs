//! SHA-256 content hashes of schemas and documents, and their hex text.
use vstd::prelude::*;
use vstd::utf8::{encode_utf8, encode_utf8_decode_utf8, is_ascii_chars, is_ascii_chars_encode_utf8};
use crate::canonical::{alike_up_to_order, canon_view, law_canonical_ignores_order_and_zero_sign, CanonicalisationError};
use crate::contract::Contract;
use crate::document::{lemma_view_parts, DocView, Document};
use crate::schema::{Constraint, ConstraintView, Field, FieldView, Schema, Type, fields_view};

verus! {

/// The SHA-256 digest of `data`.
pub uninterp spec fn sha256_digest(data: Seq<u8>) -> Seq<u8>;

/// `sha2::Sha256::digest`: the SHA-256 digest of `data`, a function of the
/// bytes alone. Feeding the same bytes to a hasher in several `update`
/// calls gives the same digest, so hashing one buffer is what the
/// incremental form computes too. Nothing is stated of the digest beyond
/// its name and its 32 bytes.
#[verifier::external_body]
fn sha256(data: &[u8]) -> (r: [u8; 32])
    ensures
        r@ == sha256_digest(data@),
{
    <sha2::Sha256 as sha2::Digest>::digest(data).into()
}

/// The eight big-endian bytes of `x`.
pub open spec fn be_bytes(x: nat) -> Seq<u8> {
    seq![
        ((x / 0x100_0000_0000_0000) % 256) as u8,
        ((x / 0x1_0000_0000_0000) % 256) as u8,
        ((x / 0x100_0000_0000) % 256) as u8,
        ((x / 0x1_0000_0000) % 256) as u8,
        ((x / 0x100_0000) % 256) as u8,
        ((x / 0x1_0000) % 256) as u8,
        ((x / 0x100) % 256) as u8,
        (x % 256) as u8,
    ]
}

/// The two's-complement bit pattern of a signed 64-bit value.
pub open spec fn twos_complement(i: int) -> nat {
    if i < 0 {
        (i + 0x1_0000_0000_0000_0000) as nat
    } else {
        i as nat
    }
}

/// A string as hashed: its UTF-8 length (big-endian 64-bit) then its bytes.
pub open spec fn str_bytes(s: Seq<char>) -> Seq<u8> {
    be_bytes(encode_utf8(s).len()) + encode_utf8(s)
}

/// The byte stream a document hashes to.
pub open spec fn document_bytes(d: DocView) -> Seq<u8>
    decreases d, 0nat,
{
    match d {
        DocView::Null => seq![0u8],
        DocView::Bool(b) => seq![1u8, if b { 1u8 } else { 0u8 }],
        DocView::Integer(i) => seq![2u8] + be_bytes(twos_complement(i)),
        DocView::Float(f) => seq![3u8] + be_bytes(f as nat),
        DocView::String(s) => seq![4u8] + str_bytes(s),
        DocView::Bytes(b) => seq![5u8] + be_bytes(b.len()) + b,
        DocView::List(items) => seq![6u8] + be_bytes(items.len()) + items_bytes(items, items.len()),
        DocView::Mapping(es) => seq![7u8] + be_bytes(es.len()) + entries_bytes(es, es.len()),
    }
}

/// The byte streams of the first `n` items, concatenated.
pub open spec fn items_bytes(items: Seq<DocView>, n: nat) -> Seq<u8>
    decreases items, n,
{
    if n == 0 || n > items.len() {
        Seq::empty()
    } else {
        proof {
            assert(decreases_to!(items => items[n - 1]));
        }
        items_bytes(items, (n - 1) as nat) + document_bytes(items[n - 1])
    }
}

/// The byte streams of the first `n` entries (key, then value), concatenated.
pub open spec fn entries_bytes(es: Seq<(Seq<char>, DocView)>, n: nat) -> Seq<u8>
    decreases es, n,
{
    if n == 0 || n > es.len() {
        Seq::empty()
    } else {
        proof {
            assert(decreases_to!(es => es[n - 1]));
            assert(decreases_to!(es[n - 1] => es[n - 1].1));
        }
        entries_bytes(es, (n - 1) as nat) + str_bytes(es[n - 1].0) + document_bytes(es[n - 1].1)
    }
}

/// The byte stream of a type.
pub open spec fn type_bytes(t: Type) -> Seq<u8>
    decreases t,
{
    match t {
        Type::Bool => seq![0u8],
        Type::Integer => seq![1u8],
        Type::Float => seq![2u8],
        Type::String => seq![3u8],
        Type::Bytes => seq![4u8],
        Type::Timestamp => seq![5u8],
        Type::List(e) => seq![6u8] + type_bytes(*e),
        Type::Mapping(k, v) => seq![7u8] + type_bytes(*k) + type_bytes(*v),
    }
}

/// An optional bound: `0`, or `1` and the value's eight bytes.
pub open spec fn opt_bytes(v: Option<u64>) -> Seq<u8> {
    match v {
        Some(x) => seq![1u8] + be_bytes(x as nat),
        None => seq![0u8],
    }
}

/// The byte stream of a constraint.
#[verifier::opaque]
pub open spec fn constraint_bytes(c: ConstraintView) -> Seq<u8> {
    match c {
        ConstraintView::Range { min, max } => seq![0u8] + opt_bytes(min) + opt_bytes(max),
        ConstraintView::Length { min, max } => seq![1u8] + opt_bytes(min) + opt_bytes(max),
        ConstraintView::Pattern { grammar } => seq![2u8] + str_bytes(grammar),
        ConstraintView::NonEmpty => seq![3u8],
        ConstraintView::Custom { name, description } => seq![4u8] + str_bytes(name) + str_bytes(description),
    }
}

/// The byte streams of the first `n` constraints, concatenated.
pub open spec fn constraints_bytes(cs: Seq<ConstraintView>, n: nat) -> Seq<u8>
    decreases n,
{
    if n == 0 || n > cs.len() {
        Seq::empty()
    } else {
        constraints_bytes(cs, (n - 1) as nat) + constraint_bytes(cs[n - 1])
    }
}

/// The byte stream of a field: name, type, required flag, and constraints
/// (the description is not part of it).
#[verifier::opaque]
pub open spec fn field_bytes(f: FieldView) -> Seq<u8> {
    str_bytes(f.name) + type_bytes(f.ty) + seq![if f.required { 1u8 } else { 0u8 }] + be_bytes(
        f.constraints.len(),
    ) + constraints_bytes(f.constraints, f.constraints.len())
}

/// The byte streams of the first `n` fields, concatenated.
pub open spec fn fields_bytes(fs: Seq<FieldView>, n: nat) -> Seq<u8>
    decreases n,
{
    if n == 0 || n > fs.len() {
        Seq::empty()
    } else {
        fields_bytes(fs, (n - 1) as nat) + field_bytes(fs[n - 1])
    }
}

/// The byte stream of a schema: its contract's text, then its fields.
pub open spec fn schema_bytes(contract: Seq<char>, fs: Seq<FieldView>) -> Seq<u8> {
    str_bytes(contract) + be_bytes(fs.len()) + fields_bytes(fs, fs.len())
}

fn push_all(buf: &mut Vec<u8>, bytes: &[u8])
    ensures
        final(buf)@ == old(buf)@ + bytes@,
{
    let mut i: usize = 0;
    while i < bytes.len()
        invariant
            i <= bytes@.len(),
            buf@ == old(buf)@ + bytes@.take(i as int),
        decreases bytes@.len() - i,
    {
        buf.push(bytes[i]);
        proof {
            assert(bytes@.take(i as int + 1) =~= bytes@.take(i as int).push(bytes@[i as int]));
        }
        i = i + 1;
    }
    proof {
        assert(bytes@.take(bytes@.len() as int) =~= bytes@);
    }
}

fn push_be(buf: &mut Vec<u8>, x: u64)
    ensures
        final(buf)@ == old(buf)@ + be_bytes(x as nat),
{
    buf.push(((x / 0x100_0000_0000_0000) % 256) as u8);
    buf.push(((x / 0x1_0000_0000_0000) % 256) as u8);
    buf.push(((x / 0x100_0000_0000) % 256) as u8);
    buf.push(((x / 0x1_0000_0000) % 256) as u8);
    buf.push(((x / 0x100_0000) % 256) as u8);
    buf.push(((x / 0x1_0000) % 256) as u8);
    buf.push(((x / 0x100) % 256) as u8);
    buf.push((x % 256) as u8);
    proof {
        assert(final(buf)@ =~= old(buf)@ + be_bytes(x as nat));
    }
}

fn push_str_bytes(buf: &mut Vec<u8>, s: &str)
    ensures
        final(buf)@ == old(buf)@ + str_bytes(s@),
{
    let b = s.as_bytes();
    push_be(buf, b.len() as u64);
    push_all(buf, b);
    proof {
        assert(final(buf)@ =~= old(buf)@ + str_bytes(s@));
    }
}

fn push_document(buf: &mut Vec<u8>, doc: &Document)
    ensures
        final(buf)@ == old(buf)@ + document_bytes(doc@),
    decreases doc,
{
    proof {
        lemma_view_parts(*doc);
    }
    match doc {
        Document::Null => buf.push(0u8),
        Document::Bool(b) => {
            buf.push(1u8);
            buf.push(if *b { 1u8 } else { 0u8 });
        },
        Document::Integer(i) => {
            buf.push(2u8);
            let u: u64 = if *i < 0 {
                ((*i - i64::MIN) as u64) + 0x8000_0000_0000_0000
            } else {
                *i as u64
            };
            push_be(buf, u);
        },
        Document::Float(f) => {
            buf.push(3u8);
            push_be(buf, *f);
        },
        Document::String(s) => {
            buf.push(4u8);
            push_str_bytes(buf, s.as_str());
        },
        Document::Bytes(b) => {
            buf.push(5u8);
            push_be(buf, b.len() as u64);
            push_all(buf, b.as_slice());
        },
        Document::List(items) => {
            buf.push(6u8);
            push_be(buf, items.len() as u64);
            let ghost start = buf@;
            let ghost iv = doc@->List_0;
            let mut i: usize = 0;
            while i < items.len()
                invariant
                    i <= items@.len(),
                    *doc == Document::List(*items),
                    iv.len() == items@.len(),
                    forall|j: int| 0 <= j < iv.len() ==> #[trigger] iv[j] == items@[j]@,
                    buf@ == start + items_bytes(iv, i as nat),
                decreases items@.len() - i,
            {
                proof {
                    assert(decreases_to!(*doc => doc->List_0));
                    assert(decreases_to!(*items => items@));
                    assert(decreases_to!(items@ => items@[i as int]));
                }
                push_document(buf, &items[i]);
                proof {
                    assert(buf@ =~= start + items_bytes(iv, (i + 1) as nat));
                }
                i = i + 1;
            }
        },
        Document::Mapping(es) => {
            buf.push(7u8);
            push_be(buf, es.len() as u64);
            let ghost start = buf@;
            let ghost ev = doc@->Mapping_0;
            let mut i: usize = 0;
            while i < es.len()
                invariant
                    i <= es@.len(),
                    *doc == Document::Mapping(*es),
                    ev.len() == es@.len(),
                    forall|j: int| 0 <= j < ev.len() ==> #[trigger] ev[j] == (es@[j].0@, es@[j].1@),
                    buf@ == start + entries_bytes(ev, i as nat),
                decreases es@.len() - i,
            {
                proof {
                    assert(decreases_to!(*doc => doc->Mapping_0));
                    assert(decreases_to!(*es => es@));
                    assert(decreases_to!(es@ => es@[i as int]));
                    assert(decreases_to!(es@[i as int] => es@[i as int].1));
                }
                push_str_bytes(buf, es[i].0.as_str());
                push_document(buf, &es[i].1);
                proof {
                    assert(buf@ =~= start + entries_bytes(ev, (i + 1) as nat));
                }
                i = i + 1;
            }
        },
    }
    proof {
        assert(final(buf)@ =~= old(buf)@ + document_bytes(doc@));
    }
}

fn push_type(buf: &mut Vec<u8>, t: &Type)
    ensures
        final(buf)@ == old(buf)@ + type_bytes(*t),
    decreases t,
{
    match t {
        Type::Bool => buf.push(0u8),
        Type::Integer => buf.push(1u8),
        Type::Float => buf.push(2u8),
        Type::String => buf.push(3u8),
        Type::Bytes => buf.push(4u8),
        Type::Timestamp => buf.push(5u8),
        Type::List(e) => {
            buf.push(6u8);
            push_type(buf, e);
        },
        Type::Mapping(k, v) => {
            buf.push(7u8);
            push_type(buf, k);
            push_type(buf, v);
        },
    }
    proof {
        assert(final(buf)@ =~= old(buf)@ + type_bytes(*t));
    }
}

fn push_opt(buf: &mut Vec<u8>, v: Option<u64>)
    ensures
        final(buf)@ == old(buf)@ + opt_bytes(v),
{
    match v {
        Some(x) => {
            buf.push(1u8);
            push_be(buf, x);
        },
        None => buf.push(0u8),
    }
    proof {
        assert(final(buf)@ =~= old(buf)@ + opt_bytes(v));
    }
}

fn push_constraint(buf: &mut Vec<u8>, c: &Constraint)
    ensures
        final(buf)@ == old(buf)@ + constraint_bytes(c@),
{
    match c {
        Constraint::Range { min, max } => {
            buf.push(0u8);
            push_opt(buf, *min);
            push_opt(buf, *max);
        },
        Constraint::Length { min, max } => {
            buf.push(1u8);
            push_opt(buf, *min);
            push_opt(buf, *max);
        },
        Constraint::Pattern { grammar } => {
            buf.push(2u8);
            push_str_bytes(buf, grammar.as_str());
        },
        Constraint::NonEmpty => buf.push(3u8),
        Constraint::Custom { name, description } => {
            buf.push(4u8);
            push_str_bytes(buf, name.as_str());
            push_str_bytes(buf, description.as_str());
        },
    }
    proof {
        reveal(constraint_bytes);
        assert(final(buf)@ =~= old(buf)@ + constraint_bytes(c@));
    }
}

fn push_field(buf: &mut Vec<u8>, f: &Field)
    ensures
        final(buf)@ == old(buf)@ + field_bytes(f@),
{
    push_str_bytes(buf, f.name());
    push_type(buf, f.ty());
    buf.push(if f.is_required() { 1u8 } else { 0u8 });
    let cs = f.constraints();
    let ghost cv = cs@.map_values(|c: Constraint| c@);
    push_be(buf, cs.len() as u64);
    let ghost start = buf@;
    let mut i: usize = 0;
    while i < cs.len()
        invariant
            i <= cs@.len(),
            cv == cs@.map_values(|c: Constraint| c@),
            buf@ == start + constraints_bytes(cv, i as nat),
        decreases cs@.len() - i,
    {
        push_constraint(buf, &cs[i]);
        proof {
            assert(buf@ =~= start + constraints_bytes(cv, (i + 1) as nat));
        }
        i = i + 1;
    }
    proof {
        reveal(field_bytes);
        assert(final(buf)@ =~= old(buf)@ + field_bytes(f@));
    }
}

/// A SHA-256 content hash of a schema's structure or of a document's
/// canonical representation.
#[derive(Debug, Clone, Copy, PartialEq, Eq)]
pub struct Hash([u8; 32]);

impl View for Hash {
    type V = Seq<u8>;

    closed spec fn view(&self) -> Seq<u8> {
        self.0@
    }
}

/// Law: a hash is 32 bytes.
pub proof fn law_hash_has_32_bytes(h: Hash)
    ensures
        h@.len() == 32,
{
}

/// Hashes a schema's structural definition: contract identity, field order,
/// names, types, required flags and constraints.
pub fn schema_hash(schema: &Schema) -> (r: Hash)
    ensures
        r@ == sha256_digest(schema_bytes(schema.contract_spec().text(), schema.fields_spec())),
{
    let mut buf: Vec<u8> = Vec::new();
    let c = schema.contract().to_string();
    push_str_bytes(&mut buf, c.as_str());
    let fields = schema.fields();
    push_be(&mut buf, fields.len() as u64);
    let ghost fs = schema.fields_spec();
    let ghost start = buf@;
    let mut i: usize = 0;
    while i < fields.len()
        invariant
            i <= fields@.len(),
            fs == fields_view(fields@),
            buf@ == start + fields_bytes(fs, i as nat),
        decreases fields@.len() - i,
    {
        push_field(&mut buf, &fields[i]);
        proof {
            assert(fs[i as int] == fields@[i as int]@);
            assert(buf@ =~= start + fields_bytes(fs, (i + 1) as nat));
        }
        i = i + 1;
    }
    proof {
        assert(buf@ =~= schema_bytes(schema.contract_spec().text(), fs));
    }
    Hash(sha256(buf.as_slice()))
}

/// Hashes a document's representation as given. Callers pass a canonical
/// document; this does not itself normalise ordering.
pub fn document_hash(canonical_doc: &Document) -> (r: Hash)
    ensures
        r@ == sha256_digest(document_bytes(canonical_doc@)),
{
    let mut buf: Vec<u8> = Vec::new();
    push_document(&mut buf, canonical_doc);
    proof {
        assert(buf@ =~= document_bytes(canonical_doc@));
    }
    Hash(sha256(buf.as_slice()))
}

/// The lowercase hex digit for `n` (`0 <= n < 16`).
pub open spec fn hex_char(n: int) -> char {
    if n < 10 {
        (n + 48) as char
    } else {
        (n + 87) as char
    }
}

/// A lowercase hex digit: `0`-`9` or `a`-`f`.
pub open spec fn is_lower_hex_char(c: char) -> bool {
    ('0' <= c <= '9') || ('a' <= c <= 'f')
}

/// Two lowercase hex digits per byte, most significant first.
pub open spec fn hex_text(bytes: Seq<u8>) -> Seq<char> {
    Seq::new(
        2 * bytes.len(),
        |i: int|
            if i % 2 == 0 {
                hex_char((bytes[i / 2] / 16) as int)
            } else {
                hex_char((bytes[i / 2] % 16) as int)
            },
    )
}

/// An ASCII hex digit byte, either case.
pub open spec fn is_hex_byte(b: u8) -> bool {
    (48 <= b <= 57) || (97 <= b <= 102) || (65 <= b <= 70)
}

/// The value of an ASCII hex digit byte.
pub open spec fn hex_value(b: u8) -> int {
    if b <= 57 {
        b - 48
    } else if b >= 97 {
        b - 87
    } else {
        b - 55
    }
}

/// Exactly 64 bytes, all hex digits.
pub open spec fn hex_ok(b: Seq<u8>) -> bool {
    b.len() == 64 && forall|i: int| 0 <= i < 64 ==> is_hex_byte(#[trigger] b[i])
}

/// The 32 bytes that 64 hex digit bytes spell.
pub open spec fn hex_decode(b: Seq<u8>) -> Seq<u8> {
    Seq::new(32, |i: int| (hex_value(b[2 * i]) * 16 + hex_value(b[2 * i + 1])) as u8)
}

fn hex_digit(n: u8) -> (c: char)
    requires
        n < 16,
    ensures
        c == hex_char(n as int),
{
    if n < 10 {
        (n + 48) as char
    } else {
        (n + 87) as char
    }
}

fn hex_byte_value(b: u8) -> (r: u8)
    requires
        is_hex_byte(b),
    ensures
        r == hex_value(b),
        r < 16,
{
    if b <= 57 {
        b - 48
    } else if b >= 97 {
        b - 87
    } else {
        b - 55
    }
}

impl Hash {
    /// Two lowercase hex digits per byte.
    pub fn to_hex(&self) -> (r: String)
        ensures
            r@ == hex_text(self@),
            r@.len() == 64,
            forall|i: int| 0 <= i < 64 ==> is_lower_hex_char(#[trigger] r@[i]),
    {
        let mut s = String::new();
        let mut i: usize = 0;
        while i < 32
            invariant
                i <= 32,
                self.0@.len() == 32,
                s@ == hex_text(self@).take(2 * i as int),
            decreases 32 - i,
        {
            let byte = self.0[i];
            crate::text::push_char(&mut s, hex_digit(byte / 16));
            crate::text::push_char(&mut s, hex_digit(byte % 16));
            proof {
                assert(s@ =~= hex_text(self@).take(2 * (i + 1) as int));
            }
            i = i + 1;
        }
        proof {
            assert(hex_text(self@).take(64) =~= hex_text(self@));
            assert forall|i: int| 0 <= i < 64 implies is_lower_hex_char(#[trigger] s@[i]) by {
                let byte = self@[i / 2];
                assert(0 <= byte / 16 < 16);
                assert(0 <= byte % 16 < 16);
            }
        }
        s
    }

    /// Parses 64 hex digits (either case) into a hash; anything else is
    /// `InvalidHashHex` carrying the input.
    pub fn from_hex(s: &str) -> (r: Result<Hash, CanonicalisationError>)
        ensures
            match r {
                Ok(h) => hex_ok(encode_utf8(s@)) && h@ == hex_decode(encode_utf8(s@)),
                Err(e) => !hex_ok(encode_utf8(s@)) && (e matches CanonicalisationError::InvalidHashHex { input }
                    && input@ == s@),
            },
    {
        let b = s.as_bytes();
        if b.len() != 64 {
            return Err(CanonicalisationError::InvalidHashHex { input: s.to_string() });
        }
        let mut k: usize = 0;
        while k < 64
            invariant
                k <= 64,
                b@.len() == 64,
                b@ == encode_utf8(s@),
                forall|j: int| 0 <= j < k ==> is_hex_byte(#[trigger] b@[j]),
            decreases 64 - k,
        {
            let c = b[k];
            if !((48 <= c && c <= 57) || (97 <= c && c <= 102) || (65 <= c && c <= 70)) {
                proof {
                    assert(!is_hex_byte(b@[k as int]));
                }
                return Err(CanonicalisationError::InvalidHashHex { input: s.to_string() });
            }
            k = k + 1;
        }
        let mut bytes = [0u8; 32];
        let mut i: usize = 0;
        while i < 32
            invariant
                i <= 32,
                b@.len() == 64,
                b@ == encode_utf8(s@),
                hex_ok(b@),
                bytes@.len() == 32,
                forall|j: int| 0 <= j < i ==> #[trigger] bytes@[j] == hex_decode(b@)[j],
            decreases 32 - i,
        {
            let hi = hex_byte_value(b[2 * i]);
            let lo = hex_byte_value(b[2 * i + 1]);
            bytes[i] = hi * 16 + lo;
            i = i + 1;
        }
        proof {
            assert(bytes@ =~= hex_decode(b@));
        }
        Ok(Hash(bytes))
    }
}

/// Law: a hash's hex text parses back to the same hash.
pub proof fn law_hex_round_trip(h: Hash)
    ensures
        hex_ok(encode_utf8(hex_text(h@))),
        hex_decode(encode_utf8(hex_text(h@))) == h@,
{
    let t = hex_text(h@);
    assert(h@.len() == 32);
    assert(is_ascii_chars(t)) by {
        assert forall|i: int| 0 <= i < t.len() implies '\0' <= #[trigger] t[i] <= '\u{7f}' by {
            let byte = h@[i / 2];
            assert(0 <= byte / 16 < 16);
            assert(0 <= byte % 16 < 16);
        }
    }
    is_ascii_chars_encode_utf8(t);
    let e = encode_utf8(t);
    assert forall|i: int| 0 <= i < 64 implies is_hex_byte(#[trigger] e[i]) by {
        assert(e[i] == t[i] as u8);
        let byte = h@[i / 2];
        assert(0 <= byte / 16 < 16);
        assert(0 <= byte % 16 < 16);
    }
    assert forall|j: int| 0 <= j < 32 implies #[trigger] hex_decode(e)[j] == h@[j] by {
        assert(e[2 * j] == t[2 * j] as u8);
        assert(e[2 * j + 1] == t[2 * j + 1] as u8);
        assert((2 * j) % 2 == 0);
        assert((2 * j + 1) % 2 == 1);
        assert((2 * j) / 2 == j);
        assert((2 * j + 1) / 2 == j);
        let byte = h@[j];
        assert(byte == (byte / 16) * 16 + byte % 16);
    }
    assert(hex_decode(e) =~= h@);
}


/// An ASCII letter byte in lower case; any other byte as it is.
pub open spec fn ascii_lower(x: u8) -> u8 {
    if 65 <= x <= 90 {
        (x + 32) as u8
    } else {
        x
    }
}

/// A hex digit's value, written back as a lowercase digit, is the digit in
/// lower case.
proof fn lemma_hex_char_of_value(x: u8)
    requires
        is_hex_byte(x),
    ensures
        0 <= hex_value(x) < 16,
        hex_char(hex_value(x)) as u8 == ascii_lower(x),
{
}

/// Law: hex text that `from_hex` accepts comes back from `to_hex` in lower
/// case: the bytes of the text of the hash that 64 hex digits spell are
/// those digits, each in lower case.
pub proof fn law_hex_text_round_trip(b: Seq<u8>)
    requires
        hex_ok(b),
    ensures
        encode_utf8(hex_text(hex_decode(b))) == b.map_values(|x: u8| ascii_lower(x)),
{
    let d = hex_decode(b);
    let t = hex_text(d);
    assert forall|j: int| 0 <= j < 32 implies #[trigger] d[j] / 16 == hex_value(b[2 * j]) && d[j] % 16 == hex_value(
        b[2 * j + 1],
    ) by {
        assert(is_hex_byte(b[2 * j]));
        assert(is_hex_byte(b[2 * j + 1]));
        let hi = hex_value(b[2 * j]);
        let lo = hex_value(b[2 * j + 1]);
        lemma_hex_char_of_value(b[2 * j]);
        lemma_hex_char_of_value(b[2 * j + 1]);
        assert(d[j] == hi * 16 + lo);
        assert((hi * 16 + lo) / 16 == hi && (hi * 16 + lo) % 16 == lo) by (nonlinear_arith)
            requires
                0 <= hi < 16,
                0 <= lo < 16,
        ;
    }
    assert forall|k: int| 0 <= k < 64 implies #[trigger] t[k] as u8 == ascii_lower(b[k]) by {
        let j = k / 2;
        assert(0 <= j < 32);
        assert(is_hex_byte(b[k]));
        lemma_hex_char_of_value(b[k]);
        if k % 2 == 0 {
            assert(k == 2 * j);
            assert(d[j] / 16 == hex_value(b[2 * j]));
        } else {
            assert(k == 2 * j + 1);
            assert(d[j] % 16 == hex_value(b[2 * j + 1]));
        }
    }
    assert(is_ascii_chars(t)) by {
        assert forall|i: int| 0 <= i < t.len() implies '\0' <= #[trigger] t[i] <= '\u{7f}' by {
            assert(t[i] as u8 == ascii_lower(b[i]));
            assert(is_hex_byte(b[i]));
            lemma_hex_char_of_value(b[i]);
        }
    }
    is_ascii_chars_encode_utf8(t);
    assert(encode_utf8(t) =~= b.map_values(|x: u8| ascii_lower(x)));
}

/// Every integer of `d` is a 64-bit signed value, and every length in it
/// (of a string's UTF-8 bytes, of a byte string, of a list or a map) fits
/// in 64 bits: true of every document a program holds.
pub open spec fn fits64(d: DocView) -> bool
    decreases d, 0nat,
{
    match d {
        DocView::Integer(i) => -0x8000_0000_0000_0000 <= i < 0x8000_0000_0000_0000,
        DocView::String(s) => encode_utf8(s).len() < 0x1_0000_0000_0000_0000,
        DocView::Bytes(b) => b.len() < 0x1_0000_0000_0000_0000,
        DocView::List(items) => items.len() < 0x1_0000_0000_0000_0000 && items_fit64(items, items.len()),
        DocView::Mapping(es) => es.len() < 0x1_0000_0000_0000_0000 && entries_fit64(es, es.len()),
        _ => true,
    }
}

pub open spec fn items_fit64(items: Seq<DocView>, n: nat) -> bool
    decreases items, n,
{
    if n == 0 || n > items.len() {
        true
    } else {
        proof {
            assert(decreases_to!(items => items[n - 1]));
        }
        items_fit64(items, (n - 1) as nat) && fits64(items[n - 1])
    }
}

pub open spec fn entries_fit64(es: Seq<(Seq<char>, DocView)>, n: nat) -> bool
    decreases es, n,
{
    if n == 0 || n > es.len() {
        true
    } else {
        proof {
            assert(decreases_to!(es => es[n - 1]));
            assert(decreases_to!(es[n - 1] => es[n - 1].1));
        }
        entries_fit64(es, (n - 1) as nat) && encode_utf8(es[n - 1].0).len() < 0x1_0000_0000_0000_0000 && fits64(
            es[n - 1].1,
        )
    }
}

pub proof fn lemma_items_fit64(items: Seq<DocView>, n: nat, i: int)
    requires
        items_fit64(items, n),
        n <= items.len(),
        0 <= i < n,
    ensures
        fits64(items[i]),
    decreases n,
{
    if i < n - 1 {
        lemma_items_fit64(items, (n - 1) as nat, i);
    }
}

pub proof fn lemma_entries_fit64(es: Seq<(Seq<char>, DocView)>, n: nat, i: int)
    requires
        entries_fit64(es, n),
        n <= es.len(),
        0 <= i < n,
    ensures
        encode_utf8(es[i].0).len() < 0x1_0000_0000_0000_0000,
        fits64(es[i].1),
    decreases n,
{
    if i < n - 1 {
        lemma_entries_fit64(es, (n - 1) as nat, i);
    }
}

/// Eight big-endian bytes determine a 64-bit value.
pub proof fn lemma_be_bytes_injective(x: nat, y: nat)
    requires
        x < 0x1_0000_0000_0000_0000,
        y < 0x1_0000_0000_0000_0000,
        be_bytes(x) == be_bytes(y),
    ensures
        x == y,
{
    let a = x as u64;
    let b = y as u64;
    assert(a as nat == x && b as nat == y);
    let bx = be_bytes(x);
    let by = be_bytes(y);
    assert(bx[0] == by[0] && bx[1] == by[1] && bx[2] == by[2] && bx[3] == by[3]);
    assert(bx[4] == by[4] && bx[5] == by[5] && bx[6] == by[6] && bx[7] == by[7]);
    assert(a == b) by (bit_vector)
        requires
            (a / 0x100_0000_0000_0000) % 256 == (b / 0x100_0000_0000_0000) % 256,
            (a / 0x1_0000_0000_0000) % 256 == (b / 0x1_0000_0000_0000) % 256,
            (a / 0x100_0000_0000) % 256 == (b / 0x100_0000_0000) % 256,
            (a / 0x1_0000_0000) % 256 == (b / 0x1_0000_0000) % 256,
            (a / 0x100_0000) % 256 == (b / 0x100_0000) % 256,
            (a / 0x1_0000) % 256 == (b / 0x1_0000) % 256,
            (a / 0x100) % 256 == (b / 0x100) % 256,
            a % 256 == b % 256,
    ;
}

/// Splitting two equal concatenations at a common length.
pub proof fn lemma_split_at(p: Seq<u8>, s: Seq<u8>, q: Seq<u8>, t: Seq<u8>)
    requires
        p + s == q + t,
        p.len() == q.len(),
    ensures
        p == q,
        s == t,
{
    assert((p + s).take(p.len() as int) =~= p);
    assert((q + t).take(q.len() as int) =~= q);
    assert((p + s).skip(p.len() as int) =~= s);
    assert((q + t).skip(q.len() as int) =~= t);
}

/// A string's hashed form (length, then UTF-8 bytes) followed by anything
/// determines the string and what follows.
pub proof fn lemma_str_bytes_prefix(x: Seq<char>, y: Seq<char>, s: Seq<u8>, t: Seq<u8>)
    requires
        encode_utf8(x).len() < 0x1_0000_0000_0000_0000,
        encode_utf8(y).len() < 0x1_0000_0000_0000_0000,
        str_bytes(x) + s == str_bytes(y) + t,
    ensures
        x == y,
        s == t,
{
    let ex = encode_utf8(x);
    let ey = encode_utf8(y);
    assert(str_bytes(x) + s == be_bytes(ex.len()) + (ex + s));
    assert(str_bytes(y) + t == be_bytes(ey.len()) + (ey + t));
    lemma_split_at(be_bytes(ex.len()), ex + s, be_bytes(ey.len()), ey + t);
    lemma_be_bytes_injective(ex.len(), ey.len());
    lemma_split_at(ex, s, ey, t);
    encode_utf8_decode_utf8(x);
    encode_utf8_decode_utf8(y);
}

/// The items' byte streams, read from the front.
pub proof fn lemma_items_front(items: Seq<DocView>, n: nat)
    requires
        1 <= n <= items.len(),
    ensures
        items_bytes(items, n) == document_bytes(items[0]) + items_bytes(items.subrange(1, items.len() as int), (n - 1) as nat),
    decreases n,
{
    let rest = items.subrange(1, items.len() as int);
    if n == 1 {
        assert(items_bytes(items, 0) =~= Seq::<u8>::empty());
        assert(items_bytes(rest, 0) =~= Seq::<u8>::empty());
        assert(items_bytes(items, 1) =~= document_bytes(items[0]));
    } else {
        lemma_items_front(items, (n - 1) as nat);
        assert(rest[n - 2] == items[n - 1]);
        assert(items_bytes(rest, (n - 1) as nat) == items_bytes(rest, (n - 2) as nat) + document_bytes(rest[n - 2]));
        assert(items_bytes(items, n) =~= document_bytes(items[0]) + items_bytes(rest, (n - 1) as nat));
    }
}

/// The entries' byte streams, read from the front.
pub proof fn lemma_entries_front(es: Seq<(Seq<char>, DocView)>, n: nat)
    requires
        1 <= n <= es.len(),
    ensures
        entries_bytes(es, n) == str_bytes(es[0].0) + document_bytes(es[0].1) + entries_bytes(
            es.subrange(1, es.len() as int),
            (n - 1) as nat,
        ),
    decreases n,
{
    let rest = es.subrange(1, es.len() as int);
    if n == 1 {
        assert(entries_bytes(es, 0) =~= Seq::<u8>::empty());
        assert(entries_bytes(rest, 0) =~= Seq::<u8>::empty());
        assert(entries_bytes(es, 1) =~= str_bytes(es[0].0) + document_bytes(es[0].1));
    } else {
        lemma_entries_front(es, (n - 1) as nat);
        assert(rest[n - 2] == es[n - 1]);
        assert(entries_bytes(rest, (n - 1) as nat) == entries_bytes(rest, (n - 2) as nat) + str_bytes(rest[n - 2].0)
            + document_bytes(rest[n - 2].1));
        assert(entries_bytes(es, n) =~= str_bytes(es[0].0) + document_bytes(es[0].1) + entries_bytes(
            rest,
            (n - 1) as nat,
        ));
    }
}

/// A document's byte stream followed by anything determines the document
/// and what follows: the stream is uniquely decodable.
#[verifier::rlimit(40)]
pub proof fn lemma_document_bytes_prefix(a: DocView, b: DocView, s: Seq<u8>, t: Seq<u8>)
    requires
        fits64(a),
        fits64(b),
        document_bytes(a) + s == document_bytes(b) + t,
    ensures
        a == b,
        s == t,
    decreases a, 0nat,
{
    let x = document_bytes(a) + s;
    assert(x[0] == document_bytes(a)[0]);
    assert((document_bytes(b) + t)[0] == document_bytes(b)[0]);
    match a {
        DocView::Null => {
            lemma_split_at(document_bytes(a), s, document_bytes(b), t);
        },
        DocView::Bool(p) => {
            lemma_split_at(document_bytes(a), s, document_bytes(b), t);
            if let DocView::Bool(q) = b {
                assert(document_bytes(a)[1] == document_bytes(b)[1]);
            }
        },
        DocView::Integer(i) => {
            if let DocView::Integer(j) = b {
                lemma_split_at(document_bytes(a), s, document_bytes(b), t);
                lemma_split_at(seq![2u8], be_bytes(twos_complement(i)), seq![2u8], be_bytes(twos_complement(j)));
                lemma_be_bytes_injective(twos_complement(i), twos_complement(j));
            }
        },
        DocView::Float(f) => {
            if let DocView::Float(g) = b {
                lemma_split_at(document_bytes(a), s, document_bytes(b), t);
                lemma_split_at(seq![3u8], be_bytes(f as nat), seq![3u8], be_bytes(g as nat));
                lemma_be_bytes_injective(f as nat, g as nat);
            }
        },
        DocView::String(u) => {
            if let DocView::String(v) = b {
                assert(x == seq![4u8] + (str_bytes(u) + s));
                assert(document_bytes(b) + t == seq![4u8] + (str_bytes(v) + t));
                lemma_split_at(seq![4u8], str_bytes(u) + s, seq![4u8], str_bytes(v) + t);
                lemma_str_bytes_prefix(u, v, s, t);
            }
        },
        DocView::Bytes(u) => {
            if let DocView::Bytes(v) = b {
                assert(x == (seq![5u8] + be_bytes(u.len())) + (u + s));
                assert(document_bytes(b) + t == (seq![5u8] + be_bytes(v.len())) + (v + t));
                lemma_split_at(seq![5u8] + be_bytes(u.len()), u + s, seq![5u8] + be_bytes(v.len()), v + t);
                lemma_split_at(seq![5u8], be_bytes(u.len()), seq![5u8], be_bytes(v.len()));
                lemma_be_bytes_injective(u.len(), v.len());
                lemma_split_at(u, s, v, t);
            }
        },
        DocView::List(xs) => {
            if let DocView::List(ys) = b {
                assert(x == (seq![6u8] + be_bytes(xs.len())) + (items_bytes(xs, xs.len()) + s));
                assert(document_bytes(b) + t == (seq![6u8] + be_bytes(ys.len())) + (items_bytes(ys, ys.len()) + t));
                lemma_split_at(
                    seq![6u8] + be_bytes(xs.len()),
                    items_bytes(xs, xs.len()) + s,
                    seq![6u8] + be_bytes(ys.len()),
                    items_bytes(ys, ys.len()) + t,
                );
                lemma_split_at(seq![6u8], be_bytes(xs.len()), seq![6u8], be_bytes(ys.len()));
                lemma_be_bytes_injective(xs.len(), ys.len());
                assert forall|i: int| 0 <= i < xs.len() implies fits64(xs[i]) && fits64(ys[i]) by {
                    lemma_items_fit64(xs, xs.len(), i);
                    lemma_items_fit64(ys, ys.len(), i);
                }
                lemma_items_prefix(xs, ys, xs.len(), s, t);
                assert(xs.take(xs.len() as int) =~= xs);
                assert(ys.take(ys.len() as int) =~= ys);
            }
        },
        DocView::Mapping(xs) => {
            if let DocView::Mapping(ys) = b {
                assert(x == (seq![7u8] + be_bytes(xs.len())) + (entries_bytes(xs, xs.len()) + s));
                assert(document_bytes(b) + t == (seq![7u8] + be_bytes(ys.len())) + (entries_bytes(ys, ys.len()) + t));
                lemma_split_at(
                    seq![7u8] + be_bytes(xs.len()),
                    entries_bytes(xs, xs.len()) + s,
                    seq![7u8] + be_bytes(ys.len()),
                    entries_bytes(ys, ys.len()) + t,
                );
                lemma_split_at(seq![7u8], be_bytes(xs.len()), seq![7u8], be_bytes(ys.len()));
                lemma_be_bytes_injective(xs.len(), ys.len());
                assert forall|i: int| 0 <= i < xs.len() implies encode_utf8(xs[i].0).len() < 0x1_0000_0000_0000_0000
                    && fits64(xs[i].1) && encode_utf8(ys[i].0).len() < 0x1_0000_0000_0000_0000 && fits64(ys[i].1) by {
                    lemma_entries_fit64(xs, xs.len(), i);
                    lemma_entries_fit64(ys, ys.len(), i);
                }
                lemma_entries_prefix(xs, ys, xs.len(), s, t);
                assert(xs.take(xs.len() as int) =~= xs);
                assert(ys.take(ys.len() as int) =~= ys);
            }
        },
    }
}

/// The first `n` items' byte streams followed by anything determine those
/// items and what follows.
pub proof fn lemma_items_prefix(xs: Seq<DocView>, ys: Seq<DocView>, n: nat, s: Seq<u8>, t: Seq<u8>)
    requires
        n <= xs.len(),
        n <= ys.len(),
        forall|i: int| 0 <= i < n ==> fits64(xs[i]) && fits64(ys[i]),
        items_bytes(xs, n) + s == items_bytes(ys, n) + t,
    ensures
        xs.take(n as int) == ys.take(n as int),
        s == t,
    decreases xs, n,
{
    if n == 0 {
        assert(items_bytes(xs, 0) =~= Seq::<u8>::empty());
        assert(items_bytes(ys, 0) =~= Seq::<u8>::empty());
        assert(items_bytes(xs, 0) + s =~= s);
        assert(items_bytes(ys, 0) + t =~= t);
        assert(xs.take(0) =~= ys.take(0));
    } else {
        let xr = xs.subrange(1, xs.len() as int);
        let yr = ys.subrange(1, ys.len() as int);
        lemma_items_front(xs, n);
        lemma_items_front(ys, n);
        assert(items_bytes(xs, n) + s == document_bytes(xs[0]) + (items_bytes(xr, (n - 1) as nat) + s));
        assert(items_bytes(ys, n) + t == document_bytes(ys[0]) + (items_bytes(yr, (n - 1) as nat) + t));
        assert(decreases_to!(xs => xs[0]));
        lemma_document_bytes_prefix(xs[0], ys[0], items_bytes(xr, (n - 1) as nat) + s, items_bytes(yr, (n - 1) as nat) + t);
        assert(decreases_to!(xs => xr));
        assert forall|i: int| 0 <= i < n - 1 implies fits64(xr[i]) && fits64(yr[i]) by {
            assert(xr[i] == xs[i + 1] && yr[i] == ys[i + 1]);
        }
        lemma_items_prefix(xr, yr, (n - 1) as nat, s, t);
        assert forall|i: int| 0 <= i < n implies xs.take(n as int)[i] == ys.take(n as int)[i] by {
            if i > 0 {
                assert(xr.take(n - 1)[i - 1] == yr.take(n - 1)[i - 1]);
            }
        }
        assert(xs.take(n as int) =~= ys.take(n as int));
    }
}

/// The first `n` entries' byte streams followed by anything determine
/// those entries and what follows.
#[verifier::rlimit(80)]
pub proof fn lemma_entries_prefix(
    xs: Seq<(Seq<char>, DocView)>,
    ys: Seq<(Seq<char>, DocView)>,
    n: nat,
    s: Seq<u8>,
    t: Seq<u8>,
)
    requires
        n <= xs.len(),
        n <= ys.len(),
        forall|i: int|
            0 <= i < n ==> encode_utf8(xs[i].0).len() < 0x1_0000_0000_0000_0000 && fits64(xs[i].1) && encode_utf8(
                ys[i].0,
            ).len() < 0x1_0000_0000_0000_0000 && fits64(ys[i].1),
        entries_bytes(xs, n) + s == entries_bytes(ys, n) + t,
    ensures
        xs.take(n as int) == ys.take(n as int),
        s == t,
    decreases xs, n,
{
    if n == 0 {
        assert(entries_bytes(xs, 0) =~= Seq::<u8>::empty());
        assert(entries_bytes(ys, 0) =~= Seq::<u8>::empty());
        assert(entries_bytes(xs, 0) + s =~= s);
        assert(entries_bytes(ys, 0) + t =~= t);
        assert(xs.take(0) =~= ys.take(0));
    } else {
        let xr = xs.subrange(1, xs.len() as int);
        let yr = ys.subrange(1, ys.len() as int);
        lemma_entries_front(xs, n);
        lemma_entries_front(ys, n);
        let sx = document_bytes(xs[0].1) + (entries_bytes(xr, (n - 1) as nat) + s);
        let sy = document_bytes(ys[0].1) + (entries_bytes(yr, (n - 1) as nat) + t);
        assert(entries_bytes(xs, n) + s == str_bytes(xs[0].0) + sx);
        assert(entries_bytes(ys, n) + t == str_bytes(ys[0].0) + sy);
        lemma_str_bytes_prefix(xs[0].0, ys[0].0, sx, sy);
        assert(decreases_to!(xs => xs[0]));
        assert(decreases_to!(xs[0] => xs[0].1));
        lemma_document_bytes_prefix(
            xs[0].1,
            ys[0].1,
            entries_bytes(xr, (n - 1) as nat) + s,
            entries_bytes(yr, (n - 1) as nat) + t,
        );
        assert(xs[0] == ys[0]);
        assert(decreases_to!(xs => xr));
        assert forall|i: int| 0 <= i < n - 1 implies encode_utf8(xr[i].0).len() < 0x1_0000_0000_0000_0000 && fits64(
            xr[i].1,
        ) && encode_utf8(yr[i].0).len() < 0x1_0000_0000_0000_0000 && fits64(yr[i].1) by {
            assert(xr[i] == xs[i + 1] && yr[i] == ys[i + 1]);
        }
        lemma_entries_prefix(xr, yr, (n - 1) as nat, s, t);
        assert forall|i: int| 0 <= i < n implies xs.take(n as int)[i] == ys.take(n as int)[i] by {
            if i > 0 {
                assert(xr.take(n - 1)[i - 1] == yr.take(n - 1)[i - 1]);
            }
        }
        assert(xs.take(n as int) =~= ys.take(n as int));
    }
}

/// Different documents hash different byte streams: the input of
/// `document_hash` determines the document (among documents whose integers
/// and lengths fit in 64 bits).
pub proof fn law_document_bytes_injective(a: DocView, b: DocView)
    requires
        fits64(a),
        fits64(b),
        document_bytes(a) == document_bytes(b),
    ensures
        a == b,
{
    assert(document_bytes(a) + Seq::<u8>::empty() =~= document_bytes(a));
    assert(document_bytes(b) + Seq::<u8>::empty() =~= document_bytes(b));
    lemma_document_bytes_prefix(a, b, Seq::empty(), Seq::empty());
}

/// Law: the hash of a canonical form is a function of the document's
/// logical value: documents alike but for the order of map entries and
/// the sign of zero, anywhere in the tree, canonicalise (under any field
/// order) to forms with the same bytes, hence the same `document_hash`.
pub proof fn law_canonical_hash_ignores_order_and_zero_sign(
    a: DocView,
    b: DocView,
    order: Option<Seq<Seq<char>>>,
)
    requires
        alike_up_to_order(a, b),
    ensures
        document_bytes(canon_view(a, order)) == document_bytes(canon_view(b, order)),
        sha256_digest(document_bytes(canon_view(a, order))) == sha256_digest(document_bytes(canon_view(b, order))),
{
    law_canonical_ignores_order_and_zero_sign(a, b, order);
}

/// The byte stream of a type followed by anything determines the type and
/// what follows: each type has its own leading tag.
pub proof fn lemma_type_bytes_prefix(a: Type, b: Type, s: Seq<u8>, t: Seq<u8>)
    requires
        type_bytes(a) + s == type_bytes(b) + t,
    ensures
        a == b,
        s == t,
    decreases a,
{
    let x = type_bytes(a) + s;
    let y = type_bytes(b) + t;
    assert(x[0] == type_bytes(a)[0]);
    assert(y[0] == type_bytes(b)[0]);
    match a {
        Type::List(ea) => {
            if let Type::List(eb) = b {
                assert(x == seq![6u8] + (type_bytes(*ea) + s));
                assert(y == seq![6u8] + (type_bytes(*eb) + t));
                lemma_split_at(seq![6u8], type_bytes(*ea) + s, seq![6u8], type_bytes(*eb) + t);
                lemma_type_bytes_prefix(*ea, *eb, s, t);
            }
        },
        Type::Mapping(ka, va) => {
            if let Type::Mapping(kb, vb) = b {
                assert(x == seq![7u8] + (type_bytes(*ka) + (type_bytes(*va) + s)));
                assert(y == seq![7u8] + (type_bytes(*kb) + (type_bytes(*vb) + t)));
                lemma_split_at(
                    seq![7u8],
                    type_bytes(*ka) + (type_bytes(*va) + s),
                    seq![7u8],
                    type_bytes(*kb) + (type_bytes(*vb) + t),
                );
                lemma_type_bytes_prefix(*ka, *kb, type_bytes(*va) + s, type_bytes(*vb) + t);
                lemma_type_bytes_prefix(*va, *vb, s, t);
            }
        },
        _ => {
            if b is List || b is Mapping {
            } else {
                assert(x == type_bytes(a) + s);
                lemma_split_at(type_bytes(a), s, type_bytes(b), t);
            }
        },
    }
}

/// Law: different types hash different byte streams: the bytes that a
/// field's type contributes to its schema's hash determine the type.
pub proof fn law_type_bytes_injective(a: Type, b: Type)
    requires
        type_bytes(a) == type_bytes(b),
    ensures
        a == b,
{
    assert(type_bytes(a) + Seq::<u8>::empty() =~= type_bytes(a));
    assert(type_bytes(b) + Seq::<u8>::empty() =~= type_bytes(b));
    lemma_type_bytes_prefix(a, b, Seq::empty(), Seq::empty());
}

/// An optional bound's bytes followed by anything determine the bound and
/// what follows.
proof fn lemma_opt_bytes_prefix(a: Option<u64>, b: Option<u64>, s: Seq<u8>, t: Seq<u8>)
    requires
        opt_bytes(a) + s == opt_bytes(b) + t,
    ensures
        a == b,
        s == t,
{
    let x = opt_bytes(a) + s;
    let y = opt_bytes(b) + t;
    assert(x[0] == opt_bytes(a)[0]);
    assert(y[0] == opt_bytes(b)[0]);
    match (a, b) {
        (Some(p), Some(q)) => {
            assert(x == seq![1u8] + (be_bytes(p as nat) + s));
            assert(y == seq![1u8] + (be_bytes(q as nat) + t));
            lemma_split_at(seq![1u8], be_bytes(p as nat) + s, seq![1u8], be_bytes(q as nat) + t);
            lemma_split_at(be_bytes(p as nat), s, be_bytes(q as nat), t);
            lemma_be_bytes_injective(p as nat, q as nat);
        },
        (None, None) => {
            lemma_split_at(opt_bytes(a), s, opt_bytes(b), t);
        },
        _ => {},
    }
}

/// A constraint's strings are short enough for their 64-bit length prefix.
#[verifier::opaque]
pub open spec fn constraint_fits64(c: ConstraintView) -> bool {
    match c {
        ConstraintView::Pattern { grammar } => encode_utf8(grammar).len() < 0x1_0000_0000_0000_0000,
        ConstraintView::Custom { name, description } => encode_utf8(name).len() < 0x1_0000_0000_0000_0000
            && encode_utf8(description).len() < 0x1_0000_0000_0000_0000,
        _ => true,
    }
}

/// A field's name, constraint count and constraints fit their 64-bit
/// length prefixes.
#[verifier::opaque]
pub open spec fn field_fits64(f: FieldView) -> bool {
    &&& encode_utf8(f.name).len() < 0x1_0000_0000_0000_0000
    &&& f.constraints.len() < 0x1_0000_0000_0000_0000
    &&& forall|j: int| 0 <= j < f.constraints.len() ==> constraint_fits64(#[trigger] f.constraints[j])
}

/// The leading tag of a constraint's bytes.
pub open spec fn constraint_tag(c: ConstraintView) -> u8 {
    match c {
        ConstraintView::Range { .. } => 0u8,
        ConstraintView::Length { .. } => 1u8,
        ConstraintView::Pattern { .. } => 2u8,
        ConstraintView::NonEmpty => 3u8,
        ConstraintView::Custom { .. } => 4u8,
    }
}

/// Two bound pairs' bytes behind one tag, followed by anything, determine
/// the bounds and what follows.
proof fn lemma_bounds_prefix(tag: u8, a1: Option<u64>, a2: Option<u64>, b1: Option<u64>, b2: Option<u64>, s: Seq<u8>, t: Seq<u8>)
    requires
        seq![tag] + opt_bytes(a1) + opt_bytes(a2) + s == seq![tag] + opt_bytes(b1) + opt_bytes(b2) + t,
    ensures
        a1 == b1,
        a2 == b2,
        s == t,
{
    assert(seq![tag] + opt_bytes(a1) + opt_bytes(a2) + s == seq![tag] + (opt_bytes(a1) + (opt_bytes(a2) + s)));
    assert(seq![tag] + opt_bytes(b1) + opt_bytes(b2) + t == seq![tag] + (opt_bytes(b1) + (opt_bytes(b2) + t)));
    lemma_split_at(seq![tag], opt_bytes(a1) + (opt_bytes(a2) + s), seq![tag], opt_bytes(b1) + (opt_bytes(b2) + t));
    lemma_opt_bytes_prefix(a1, b1, opt_bytes(a2) + s, opt_bytes(b2) + t);
    lemma_opt_bytes_prefix(a2, b2, s, t);
}

/// A constraint's bytes followed by anything determine the constraint and
/// what follows.
#[verifier::rlimit(40)]
proof fn lemma_constraint_bytes_prefix(a: ConstraintView, b: ConstraintView, s: Seq<u8>, t: Seq<u8>)
    requires
        constraint_fits64(a),
        constraint_fits64(b),
        constraint_bytes(a) + s == constraint_bytes(b) + t,
    ensures
        a == b,
        s == t,
{
    reveal(constraint_bytes);
    reveal(constraint_fits64);
    assert((constraint_bytes(a) + s)[0] == constraint_tag(a));
    assert((constraint_bytes(b) + t)[0] == constraint_tag(b));
    assert(constraint_tag(a) == constraint_tag(b));
    match a {
        ConstraintView::Range { min: a1, max: a2 } => {
            let (b1, b2) = match b {
                ConstraintView::Range { min, max } => (min, max),
                _ => (None, None),
            };
            lemma_bounds_prefix(0u8, a1, a2, b1, b2, s, t);
        },
        ConstraintView::Length { min: a1, max: a2 } => {
            let (b1, b2) = match b {
                ConstraintView::Length { min, max } => (min, max),
                _ => (None, None),
            };
            lemma_bounds_prefix(1u8, a1, a2, b1, b2, s, t);
        },
        ConstraintView::Pattern { grammar: g } => {
            let h = match b {
                ConstraintView::Pattern { grammar } => grammar,
                _ => Seq::empty(),
            };
            assert(constraint_bytes(a) + s == seq![2u8] + (str_bytes(g) + s));
            assert(constraint_bytes(b) + t == seq![2u8] + (str_bytes(h) + t));
            lemma_split_at(seq![2u8], str_bytes(g) + s, seq![2u8], str_bytes(h) + t);
            lemma_str_bytes_prefix(g, h, s, t);
        },
        ConstraintView::NonEmpty => {
            lemma_split_at(constraint_bytes(a), s, constraint_bytes(b), t);
        },
        ConstraintView::Custom { name: n1, description: d1 } => {
            let (n2, d2) = match b {
                ConstraintView::Custom { name, description } => (name, description),
                _ => (Seq::empty(), Seq::empty()),
            };
            assert(constraint_bytes(a) + s == seq![4u8] + (str_bytes(n1) + (str_bytes(d1) + s)));
            assert(constraint_bytes(b) + t == seq![4u8] + (str_bytes(n2) + (str_bytes(d2) + t)));
            lemma_split_at(seq![4u8], str_bytes(n1) + (str_bytes(d1) + s), seq![4u8], str_bytes(n2) + (str_bytes(d2) + t));
            lemma_str_bytes_prefix(n1, n2, str_bytes(d1) + s, str_bytes(d2) + t);
            lemma_str_bytes_prefix(d1, d2, s, t);
        },
    }
}

/// The constraints' byte streams, read from the front.
proof fn lemma_constraints_front(cs: Seq<ConstraintView>, n: nat)
    requires
        1 <= n <= cs.len(),
    ensures
        constraints_bytes(cs, n) == constraint_bytes(cs[0]) + constraints_bytes(
            cs.subrange(1, cs.len() as int),
            (n - 1) as nat,
        ),
    decreases n,
{
    let rest = cs.subrange(1, cs.len() as int);
    if n == 1 {
        assert(constraints_bytes(cs, 0) =~= Seq::<u8>::empty());
        assert(constraints_bytes(rest, 0) =~= Seq::<u8>::empty());
        assert(constraints_bytes(cs, 1) =~= constraint_bytes(cs[0]));
    } else {
        lemma_constraints_front(cs, (n - 1) as nat);
        assert(rest[n - 2] == cs[n - 1]);
        assert(constraints_bytes(rest, (n - 1) as nat) == constraints_bytes(rest, (n - 2) as nat) + constraint_bytes(
            rest[n - 2],
        ));
        assert(constraints_bytes(cs, n) =~= constraint_bytes(cs[0]) + constraints_bytes(rest, (n - 1) as nat));
    }
}

/// The first `n` constraints' byte streams followed by anything determine
/// those constraints and what follows.
proof fn lemma_constraints_prefix(xs: Seq<ConstraintView>, ys: Seq<ConstraintView>, n: nat, s: Seq<u8>, t: Seq<u8>)
    requires
        n <= xs.len(),
        n <= ys.len(),
        forall|i: int| 0 <= i < n ==> constraint_fits64(#[trigger] xs[i]) && constraint_fits64(ys[i]),
        constraints_bytes(xs, n) + s == constraints_bytes(ys, n) + t,
    ensures
        xs.take(n as int) == ys.take(n as int),
        s == t,
    decreases n,
{
    if n == 0 {
        assert(constraints_bytes(xs, 0) + s =~= s);
        assert(constraints_bytes(ys, 0) + t =~= t);
        assert(xs.take(0) =~= ys.take(0));
    } else {
        let xr = xs.subrange(1, xs.len() as int);
        let yr = ys.subrange(1, ys.len() as int);
        lemma_constraints_front(xs, n);
        lemma_constraints_front(ys, n);
        assert(constraints_bytes(xs, n) + s == constraint_bytes(xs[0]) + (constraints_bytes(xr, (n - 1) as nat) + s));
        assert(constraints_bytes(ys, n) + t == constraint_bytes(ys[0]) + (constraints_bytes(yr, (n - 1) as nat) + t));
        assert(constraint_fits64(xs[0]) && constraint_fits64(ys[0]));
        lemma_constraint_bytes_prefix(
            xs[0],
            ys[0],
            constraints_bytes(xr, (n - 1) as nat) + s,
            constraints_bytes(yr, (n - 1) as nat) + t,
        );
        assert forall|i: int| 0 <= i < n - 1 implies constraint_fits64(#[trigger] xr[i]) && constraint_fits64(yr[i]) by {
            assert(xr[i] == xs[i + 1] && yr[i] == ys[i + 1]);
        }
        lemma_constraints_prefix(xr, yr, (n - 1) as nat, s, t);
        assert forall|i: int| 0 <= i < n implies xs.take(n as int)[i] == ys.take(n as int)[i] by {
            if i > 0 {
                assert(xr.take(n - 1)[i - 1] == yr.take(n - 1)[i - 1]);
            }
        }
        assert(xs.take(n as int) =~= ys.take(n as int));
    }
}

/// Two fields hash alike: the same name, type, required flag and
/// constraints (the description is not hashed).
pub open spec fn hashed_alike(f: FieldView, g: FieldView) -> bool {
    &&& f.name == g.name
    &&& f.ty == g.ty
    &&& f.required == g.required
    &&& f.constraints == g.constraints
}

/// A field's byte stream, split at its parts.
proof fn lemma_field_bytes_shape(f: FieldView, s: Seq<u8>)
    ensures
        field_bytes(f) + s == str_bytes(f.name) + (type_bytes(f.ty) + (seq![if f.required { 1u8 } else { 0u8 }] + (
        be_bytes(f.constraints.len()) + (constraints_bytes(f.constraints, f.constraints.len()) + s)))),
{
    reveal(field_bytes);
    assert(field_bytes(f) + s =~= str_bytes(f.name) + (type_bytes(f.ty) + (seq![if f.required { 1u8 } else { 0u8 }] + (
    be_bytes(f.constraints.len()) + (constraints_bytes(f.constraints, f.constraints.len()) + s)))));
}

/// A field's byte stream followed by anything determines its name, type,
/// required flag and constraints, and what follows.
#[verifier::rlimit(40)]
proof fn lemma_field_bytes_prefix(a: FieldView, b: FieldView, s: Seq<u8>, t: Seq<u8>)
    requires
        field_fits64(a),
        field_fits64(b),
        field_bytes(a) + s == field_bytes(b) + t,
    ensures
        hashed_alike(a, b),
        s == t,
{
    reveal(field_fits64);
    let ra: u8 = if a.required { 1u8 } else { 0u8 };
    let rb: u8 = if b.required { 1u8 } else { 0u8 };
    let ca = constraints_bytes(a.constraints, a.constraints.len()) + s;
    let cb = constraints_bytes(b.constraints, b.constraints.len()) + t;
    lemma_field_bytes_shape(a, s);
    lemma_field_bytes_shape(b, t);
    lemma_str_bytes_prefix(
        a.name,
        b.name,
        type_bytes(a.ty) + (seq![ra] + (be_bytes(a.constraints.len()) + ca)),
        type_bytes(b.ty) + (seq![rb] + (be_bytes(b.constraints.len()) + cb)),
    );
    lemma_type_bytes_prefix(
        a.ty,
        b.ty,
        seq![ra] + (be_bytes(a.constraints.len()) + ca),
        seq![rb] + (be_bytes(b.constraints.len()) + cb),
    );
    lemma_split_at(seq![ra], be_bytes(a.constraints.len()) + ca, seq![rb], be_bytes(b.constraints.len()) + cb);
    assert(seq![ra][0] == seq![rb][0]);
    lemma_split_at(be_bytes(a.constraints.len()), ca, be_bytes(b.constraints.len()), cb);
    lemma_be_bytes_injective(a.constraints.len(), b.constraints.len());
    let n = a.constraints.len();
    lemma_constraints_prefix(a.constraints, b.constraints, n, s, t);
    assert(a.constraints.take(n as int) =~= a.constraints);
    assert(b.constraints.take(n as int) =~= b.constraints);
}

/// The fields' byte streams, read from the front.
proof fn lemma_fields_front(fs: Seq<FieldView>, n: nat)
    requires
        1 <= n <= fs.len(),
    ensures
        fields_bytes(fs, n) == field_bytes(fs[0]) + fields_bytes(fs.subrange(1, fs.len() as int), (n - 1) as nat),
    decreases n,
{
    let rest = fs.subrange(1, fs.len() as int);
    if n == 1 {
        assert(fields_bytes(fs, 0) =~= Seq::<u8>::empty());
        assert(fields_bytes(rest, 0) =~= Seq::<u8>::empty());
        assert(fields_bytes(fs, 1) =~= field_bytes(fs[0]));
    } else {
        lemma_fields_front(fs, (n - 1) as nat);
        assert(rest[n - 2] == fs[n - 1]);
        assert(fields_bytes(rest, (n - 1) as nat) == fields_bytes(rest, (n - 2) as nat) + field_bytes(rest[n - 2]));
        assert(fields_bytes(fs, n) =~= field_bytes(fs[0]) + fields_bytes(rest, (n - 1) as nat));
    }
}

/// The first `n` fields' byte streams followed by anything determine what
/// those fields hash and what follows.
proof fn lemma_fields_prefix(xs: Seq<FieldView>, ys: Seq<FieldView>, n: nat, s: Seq<u8>, t: Seq<u8>)
    requires
        n <= xs.len(),
        n <= ys.len(),
        forall|i: int| 0 <= i < n ==> field_fits64(#[trigger] xs[i]) && field_fits64(ys[i]),
        fields_bytes(xs, n) + s == fields_bytes(ys, n) + t,
    ensures
        forall|i: int| 0 <= i < n ==> hashed_alike(#[trigger] xs[i], ys[i]),
        s == t,
    decreases n,
{
    if n == 0 {
        assert(fields_bytes(xs, 0) + s =~= s);
        assert(fields_bytes(ys, 0) + t =~= t);
    } else {
        let xr = xs.subrange(1, xs.len() as int);
        let yr = ys.subrange(1, ys.len() as int);
        lemma_fields_front(xs, n);
        lemma_fields_front(ys, n);
        assert(fields_bytes(xs, n) + s == field_bytes(xs[0]) + (fields_bytes(xr, (n - 1) as nat) + s));
        assert(fields_bytes(ys, n) + t == field_bytes(ys[0]) + (fields_bytes(yr, (n - 1) as nat) + t));
        assert(field_fits64(xs[0]) && field_fits64(ys[0]));
        lemma_field_bytes_prefix(xs[0], ys[0], fields_bytes(xr, (n - 1) as nat) + s, fields_bytes(yr, (n - 1) as nat) + t);
        assert forall|i: int| 0 <= i < n - 1 implies field_fits64(#[trigger] xr[i]) && field_fits64(yr[i]) by {
            assert(xr[i] == xs[i + 1] && yr[i] == ys[i + 1]);
        }
        lemma_fields_prefix(xr, yr, (n - 1) as nat, s, t);
        assert forall|i: int| 0 <= i < n implies hashed_alike(#[trigger] xs[i], ys[i]) by {
            if i > 0 {
                assert(xr[i - 1] == xs[i] && yr[i - 1] == ys[i]);
            }
        }
    }
}

/// Law: the bytes a schema hashes determine its contract text and, field by
/// field in order, each field's name, type, required flag and constraints
/// (all that a field contributes; its description is not hashed), among
/// schemas whose texts and counts fit their 64-bit length prefixes. So two
/// schemas that differ in any of these, such as one field's type, hash
/// different byte streams.
pub proof fn law_schema_bytes_injective(c1: Seq<char>, fs1: Seq<FieldView>, c2: Seq<char>, fs2: Seq<FieldView>)
    requires
        encode_utf8(c1).len() < 0x1_0000_0000_0000_0000,
        encode_utf8(c2).len() < 0x1_0000_0000_0000_0000,
        fs1.len() < 0x1_0000_0000_0000_0000,
        fs2.len() < 0x1_0000_0000_0000_0000,
        forall|k: int| 0 <= k < fs1.len() ==> field_fits64(#[trigger] fs1[k]),
        forall|k: int| 0 <= k < fs2.len() ==> field_fits64(#[trigger] fs2[k]),
        schema_bytes(c1, fs1) == schema_bytes(c2, fs2),
    ensures
        c1 == c2,
        fs1.len() == fs2.len(),
        forall|k: int| 0 <= k < fs1.len() ==> hashed_alike(#[trigger] fs1[k], fs2[k]),
{
    let r1 = fields_bytes(fs1, fs1.len());
    let r2 = fields_bytes(fs2, fs2.len());
    assert(schema_bytes(c1, fs1) == str_bytes(c1) + (be_bytes(fs1.len()) + r1));
    assert(schema_bytes(c2, fs2) == str_bytes(c2) + (be_bytes(fs2.len()) + r2));
    lemma_str_bytes_prefix(c1, c2, be_bytes(fs1.len()) + r1, be_bytes(fs2.len()) + r2);
    lemma_split_at(be_bytes(fs1.len()), r1, be_bytes(fs2.len()), r2);
    lemma_be_bytes_injective(fs1.len(), fs2.len());
    assert(r1 + Seq::<u8>::empty() =~= r1);
    assert(r2 + Seq::<u8>::empty() =~= r2);
    lemma_fields_prefix(fs1, fs2, fs1.len(), Seq::empty(), Seq::empty());
}

} // verus!
