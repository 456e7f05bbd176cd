//! The JSON backend: JSON text becomes a `Document` (its size checked
//! before `serde_json` parses it, the parsed value then decoded under
//! limits), and a `Document` becomes a JSON value, refusing non-finite
//! doubles. Writing that value out as text turns a double's bits back into
//! a float, which this library leaves to its caller.
use vstd::prelude::*;
use crate::document::{lemma_view_parts, DocView, Document};
use crate::errors::ErrorCode;
use crate::float_bits::{f64_is_infinite, f64_is_nan, is_infinite, is_nan};
use crate::path::{path_text, Path, SegView};
use serde_json::Value;
use crate::text::{chars_of, decimal, decimal_string, push_str, str_debug, debug_str, str_eq};

verus! {

/// A JSON number as `serde_json` holds it: a non-negative integer, a
/// negative integer, or a double (by its bits).
#[derive(Debug, Clone, Copy, PartialEq, Eq, Structural)]
pub enum JsonNumber {
    PosInt(u64),
    NegInt(i64),
    Float(u64),
}

/// A parsed JSON value. An object's entries are in insertion order with
/// distinct keys, as `serde_json`'s order-preserving map keeps them.
#[derive(Debug, PartialEq)]
pub enum JsonValue {
    Null,
    Bool(bool),
    Number(JsonNumber),
    String(String),
    Array(Vec<JsonValue>),
    Object(Vec<(String, JsonValue)>),
}

/// The mathematical value of a `JsonValue`.
pub enum JsonView {
    Null,
    Bool(bool),
    Number(JsonNumber),
    String(Seq<char>),
    Array(Seq<JsonView>),
    Object(Seq<(Seq<char>, JsonView)>),
}

pub open spec fn json_view(v: JsonValue) -> JsonView
    decreases v,
{
    match v {
        JsonValue::Null => JsonView::Null,
        JsonValue::Bool(b) => JsonView::Bool(b),
        JsonValue::Number(n) => JsonView::Number(n),
        JsonValue::String(s) => JsonView::String(s@),
        JsonValue::Array(items) => JsonView::Array(
            Seq::new(
                items@.len(),
                |i: int|
                    if 0 <= i < items@.len() {
                        proof {
                            assert(decreases_to!(v => items@[i]));
                        }
                        json_view(items@[i])
                    } else {
                        JsonView::Null
                    },
            ),
        ),
        JsonValue::Object(es) => JsonView::Object(
            Seq::new(
                es@.len(),
                |i: int|
                    if 0 <= i < es@.len() {
                        proof {
                            assert(decreases_to!(v => es@[i].1));
                        }
                        (es@[i].0@, json_view(es@[i].1))
                    } else {
                        (Seq::empty(), JsonView::Null)
                    },
            ),
        ),
    }
}

impl View for JsonValue {
    type V = JsonView;

    open spec fn view(&self) -> JsonView {
        json_view(*self)
    }
}

pub proof fn lemma_json_parts(v: JsonValue)
    ensures
        match v {
            JsonValue::Array(items) => v@ matches JsonView::Array(s) && s.len() == items@.len()
                && forall|j: int| 0 <= j < s.len() ==> #[trigger] s[j] == items@[j]@,
            JsonValue::Object(es) => v@ matches JsonView::Object(s) && s.len() == es@.len()
                && forall|j: int| 0 <= j < s.len() ==> #[trigger] s[j] == (es@[j].0@, es@[j].1@),
            _ => true,
        },
{
    match v {
        JsonValue::Array(items) => {
            let s = v@->Array_0;
            assert forall|j: int| 0 <= j < s.len() implies #[trigger] s[j] == items@[j]@ by {}
        },
        JsonValue::Object(es) => {
            let s = v@->Object_0;
            assert forall|j: int| 0 <= j < s.len() implies #[trigger] s[j] == (es@[j].0@, es@[j].1@) by {}
        },
        _ => {},
    }
}

/// Limits applied while decoding. `max_input_bytes` is checked before any
/// parsing; the others bound the parsed value's shape.
#[derive(Debug, Clone, Copy, PartialEq, Eq, Structural)]
pub struct DecodeLimits {
    pub max_input_bytes: usize,
    pub max_depth: usize,
    pub max_string_len: usize,
    pub max_collection_len: usize,
}

impl Default for DecodeLimits {
    fn default() -> (r: Self)
        ensures
            r == (DecodeLimits {
                max_input_bytes: 10485760,
                max_depth: 64,
                max_string_len: 1_000_000,
                max_collection_len: 100_000,
            }),
    {
        DecodeLimits {
            max_input_bytes: 10 * 1024 * 1024,
            max_depth: 64,
            max_string_len: 1_000_000,
            max_collection_len: 100_000,
        }
    }
}

/// The limits of `DecodeLimits::default()`.
pub open spec fn default_limits() -> DecodeLimits {
    DecodeLimits { max_input_bytes: 10485760, max_depth: 64, max_string_len: 1_000_000, max_collection_len: 100_000 }
}

/// Failures decoding JSON text into a document.
#[derive(Debug, PartialEq, Eq)]
pub enum DecodeError {
    InputTooLarge { limit: usize, actual: usize },
    Syntax { message: String, line: usize, column: usize },
    DepthExceeded { path: Path, limit: usize },
    StringTooLong { path: Path, limit: usize, actual: usize },
    CollectionTooLarge { path: Path, limit: usize, actual: usize },
    IntegerOutOfRange { path: Path, literal: String },
}

/// The mathematical value of a `DecodeError`.
pub enum DecodeFailure {
    InputTooLarge { limit: usize, actual: usize },
    Syntax { message: Seq<char>, line: usize, column: usize },
    DepthExceeded { path: Seq<SegView>, limit: usize },
    StringTooLong { path: Seq<SegView>, limit: usize, actual: nat },
    CollectionTooLarge { path: Seq<SegView>, limit: usize, actual: nat },
    IntegerOutOfRange { path: Seq<SegView>, literal: Seq<char> },
}

impl View for DecodeError {
    type V = DecodeFailure;

    open spec fn view(&self) -> DecodeFailure {
        match self {
            DecodeError::InputTooLarge { limit, actual } => DecodeFailure::InputTooLarge {
                limit: *limit,
                actual: *actual,
            },
            DecodeError::Syntax { message, line, column } => DecodeFailure::Syntax {
                message: message@,
                line: *line,
                column: *column,
            },
            DecodeError::DepthExceeded { path, limit } => DecodeFailure::DepthExceeded {
                path: path@,
                limit: *limit,
            },
            DecodeError::StringTooLong { path, limit, actual } => DecodeFailure::StringTooLong {
                path: path@,
                limit: *limit,
                actual: *actual as nat,
            },
            DecodeError::CollectionTooLarge { path, limit, actual } => DecodeFailure::CollectionTooLarge {
                path: path@,
                limit: *limit,
                actual: *actual as nat,
            },
            DecodeError::IntegerOutOfRange { path, literal } => DecodeFailure::IntegerOutOfRange {
                path: path@,
                literal: literal@,
            },
        }
    }
}

impl ErrorCode for DecodeError {
    open spec fn code_spec(&self) -> Seq<char> {
        match self {
            DecodeError::InputTooLarge { .. } => "json.decode.input-too-large"@,
            DecodeError::Syntax { .. } => "json.decode.syntax"@,
            DecodeError::DepthExceeded { .. } => "json.decode.depth-exceeded"@,
            DecodeError::StringTooLong { .. } => "json.decode.string-too-long"@,
            DecodeError::CollectionTooLarge { .. } => "json.decode.collection-too-large"@,
            DecodeError::IntegerOutOfRange { .. } => "json.decode.integer-out-of-range"@,
        }
    }

    fn code(&self) -> (r: &'static str) {
        match self {
            DecodeError::InputTooLarge { .. } => "json.decode.input-too-large",
            DecodeError::Syntax { .. } => "json.decode.syntax",
            DecodeError::DepthExceeded { .. } => "json.decode.depth-exceeded",
            DecodeError::StringTooLong { .. } => "json.decode.string-too-long",
            DecodeError::CollectionTooLarge { .. } => "json.decode.collection-too-large",
            DecodeError::IntegerOutOfRange { .. } => "json.decode.integer-out-of-range",
        }
    }
}

impl DecodeError {
    pub open spec fn message_spec(&self) -> Seq<char> {
        match self {
            DecodeError::InputTooLarge { limit, actual } => "input too large: "@ + decimal(*actual as nat)
                + " bytes exceeds the "@ + decimal(*limit as nat) + " byte limit"@,
            DecodeError::Syntax { message, line, column } => "malformed JSON at line "@ + decimal(
                *line as nat,
            ) + ", column "@ + decimal(*column as nat) + ": "@ + message@,
            DecodeError::DepthExceeded { path, limit } => "nesting depth exceeds the limit of "@ + decimal(
                *limit as nat,
            ) + " at "@ + path_text(path@),
            DecodeError::StringTooLong { path, limit, actual } => "string length "@ + decimal(*actual as nat)
                + " exceeds the limit of "@ + decimal(*limit as nat) + " at "@ + path_text(path@),
            DecodeError::CollectionTooLarge { path, limit, actual } => "collection length "@ + decimal(
                *actual as nat,
            ) + " exceeds the limit of "@ + decimal(*limit as nat) + " at "@ + path_text(path@),
            DecodeError::IntegerOutOfRange { path, literal } => "integer literal "@ + str_debug(literal@)
                + " at "@ + path_text(path@) + " does not fit in a 64-bit signed integer"@,
        }
    }

    /// The human-readable message of this error.
    pub fn message(&self) -> (r: String)
        ensures
            r@ == self.message_spec(),
    {
        let mut r = String::new();
        match self {
            DecodeError::InputTooLarge { limit, actual } => {
                push_str(&mut r, "input too large: ");
                push_str(&mut r, decimal_string(*actual as u64).as_str());
                push_str(&mut r, " bytes exceeds the ");
                push_str(&mut r, decimal_string(*limit as u64).as_str());
                push_str(&mut r, " byte limit");
            },
            DecodeError::Syntax { message, line, column } => {
                push_str(&mut r, "malformed JSON at line ");
                push_str(&mut r, decimal_string(*line as u64).as_str());
                push_str(&mut r, ", column ");
                push_str(&mut r, decimal_string(*column as u64).as_str());
                push_str(&mut r, ": ");
                push_str(&mut r, message.as_str());
            },
            DecodeError::DepthExceeded { path, limit } => {
                push_str(&mut r, "nesting depth exceeds the limit of ");
                push_str(&mut r, decimal_string(*limit as u64).as_str());
                push_str(&mut r, " at ");
                push_str(&mut r, path.to_string().as_str());
            },
            DecodeError::StringTooLong { path, limit, actual } => {
                push_str(&mut r, "string length ");
                push_str(&mut r, decimal_string(*actual as u64).as_str());
                push_str(&mut r, " exceeds the limit of ");
                push_str(&mut r, decimal_string(*limit as u64).as_str());
                push_str(&mut r, " at ");
                push_str(&mut r, path.to_string().as_str());
            },
            DecodeError::CollectionTooLarge { path, limit, actual } => {
                push_str(&mut r, "collection length ");
                push_str(&mut r, decimal_string(*actual as u64).as_str());
                push_str(&mut r, " exceeds the limit of ");
                push_str(&mut r, decimal_string(*limit as u64).as_str());
                push_str(&mut r, " at ");
                push_str(&mut r, path.to_string().as_str());
            },
            DecodeError::IntegerOutOfRange { path, literal } => {
                push_str(&mut r, "integer literal ");
                push_str(&mut r, debug_str(literal.as_str()).as_str());
                push_str(&mut r, " at ");
                push_str(&mut r, path.to_string().as_str());
                push_str(&mut r, " does not fit in a 64-bit signed integer");
            },
        }
        proof {
            assert(r@ =~= self.message_spec());
        }
        r
    }
}

/// Refuses input longer than `max_input_bytes`, before any parsing.
pub fn check_input_size(len: usize, limits: &DecodeLimits) -> (r: Result<(), DecodeError>)
    ensures
        r is Ok <==> len <= limits.max_input_bytes,
        r matches Err(e) ==> e@ == (DecodeFailure::InputTooLarge { limit: limits.max_input_bytes, actual: len }),
{
    if len > limits.max_input_bytes {
        Err(DecodeError::InputTooLarge { limit: limits.max_input_bytes, actual: len })
    } else {
        Ok(())
    }
}

/// What a parsed JSON value decodes to at `path` and nesting `depth`:
/// integers in the 64-bit signed range become `Integer`, larger ones are
/// refused, other numbers become `Float`; strings, lists and maps are
/// checked against the limits first.
pub open spec fn decode_spec(v: JsonView, path: Seq<SegView>, depth: nat, limits: DecodeLimits) -> Result<
    DocView,
    DecodeFailure,
>
    decreases v, 0nat,
{
    if depth > limits.max_depth {
        Err(DecodeFailure::DepthExceeded { path, limit: limits.max_depth })
    } else {
        match v {
            JsonView::Null => Ok(DocView::Null),
            JsonView::Bool(b) => Ok(DocView::Bool(b)),
            JsonView::Number(JsonNumber::PosInt(u)) => if u <= i64::MAX {
                Ok(DocView::Integer(u as int))
            } else {
                Err(DecodeFailure::IntegerOutOfRange { path, literal: decimal(u as nat) })
            },
            JsonView::Number(JsonNumber::NegInt(i)) => Ok(DocView::Integer(i as int)),
            JsonView::Number(JsonNumber::Float(f)) => Ok(DocView::Float(f)),
            JsonView::String(s) => if s.len() > limits.max_string_len {
                Err(DecodeFailure::StringTooLong { path, limit: limits.max_string_len, actual: s.len() })
            } else {
                Ok(DocView::String(s))
            },
            JsonView::Array(items) => if items.len() > limits.max_collection_len {
                Err(
                    DecodeFailure::CollectionTooLarge {
                        path,
                        limit: limits.max_collection_len,
                        actual: items.len(),
                    },
                )
            } else {
                match decode_items(items, path, depth + 1, limits, items.len()) {
                    Ok(ds) => Ok(DocView::List(ds)),
                    Err(e) => Err(e),
                }
            },
            JsonView::Object(es) => if es.len() > limits.max_collection_len {
                Err(
                    DecodeFailure::CollectionTooLarge {
                        path,
                        limit: limits.max_collection_len,
                        actual: es.len(),
                    },
                )
            } else {
                match decode_entries(es, path, depth + 1, limits, es.len()) {
                    Ok(ds) => Ok(DocView::Mapping(ds)),
                    Err(e) => Err(e),
                }
            },
        }
    }
}

/// The first `n` array items decoded in order, stopping at the first failure.
pub open spec fn decode_items(
    items: Seq<JsonView>,
    path: Seq<SegView>,
    depth: nat,
    limits: DecodeLimits,
    n: nat,
) -> Result<Seq<DocView>, DecodeFailure>
    decreases items, n,
{
    if n == 0 || n > items.len() {
        Ok(Seq::empty())
    } else {
        proof {
            assert(decreases_to!(items => items[n - 1]));
        }
        match decode_items(items, path, depth, limits, (n - 1) as nat) {
            Err(e) => Err(e),
            Ok(ds) => match decode_spec(items[n - 1], path.push(SegView::Index((n - 1) as usize)), depth, limits) {
                Err(e) => Err(e),
                Ok(d) => Ok(ds.push(d)),
            },
        }
    }
}

/// The first `n` object entries decoded in order, stopping at the first
/// failure.
pub open spec fn decode_entries(
    es: Seq<(Seq<char>, JsonView)>,
    path: Seq<SegView>,
    depth: nat,
    limits: DecodeLimits,
    n: nat,
) -> Result<Seq<(Seq<char>, DocView)>, DecodeFailure>
    decreases es, n,
{
    if n == 0 || n > es.len() {
        Ok(Seq::empty())
    } else {
        proof {
            assert(decreases_to!(es => es[n - 1]));
            assert(decreases_to!(es[n - 1] => es[n - 1].1));
        }
        match decode_entries(es, path, depth, limits, (n - 1) as nat) {
            Err(e) => Err(e),
            Ok(ds) => match decode_spec(es[n - 1].1, path.push(SegView::Field(es[n - 1].0)), depth, limits) {
                Err(e) => Err(e),
                Ok(d) => Ok(ds.push((es[n - 1].0, d))),
            },
        }
    }
}

fn value_to_document(value: &JsonValue, path: &Path, depth: u128, limits: &DecodeLimits) -> (r: Result<
    Document,
    DecodeError,
>)
    requires
        depth <= usize::MAX + 1,
    ensures
        match decode_spec(value@, path@, depth as nat, *limits) {
            Ok(d) => r matches Ok(x) && x@ == d,
            Err(f) => r matches Err(e) && e@ == f,
        },
    decreases value,
{
    if depth > limits.max_depth as u128 {
        return Err(DecodeError::DepthExceeded { path: path.clone(), limit: limits.max_depth });
    }
    proof {
        lemma_json_parts(*value);
    }
    match value {
        JsonValue::Null => Ok(Document::Null),
        JsonValue::Bool(b) => Ok(Document::Bool(*b)),
        JsonValue::Number(JsonNumber::PosInt(u)) => {
            if *u <= 0x7fff_ffff_ffff_ffff {
                Ok(Document::Integer(*u as i64))
            } else {
                Err(DecodeError::IntegerOutOfRange { path: path.clone(), literal: decimal_string(*u) })
            }
        },
        JsonValue::Number(JsonNumber::NegInt(i)) => Ok(Document::Integer(*i)),
        JsonValue::Number(JsonNumber::Float(f)) => Ok(Document::Float(*f)),
        JsonValue::String(s) => {
            let len = s.as_str().unicode_len();
            if len > limits.max_string_len {
                return Err(
                    DecodeError::StringTooLong { path: path.clone(), limit: limits.max_string_len, actual: len },
                );
            }
            Ok(Document::String(s.clone()))
        },
        JsonValue::Array(items) => {
            if items.len() > limits.max_collection_len {
                return Err(
                    DecodeError::CollectionTooLarge {
                        path: path.clone(),
                        limit: limits.max_collection_len,
                        actual: items.len(),
                    },
                );
            }
            let ghost iv = value@->Array_0;
            let mut out: Vec<Document> = Vec::new();
            let mut i: usize = 0;
            while i < items.len()
                invariant
                    i <= items@.len(),
                    *value == JsonValue::Array(*items),
                    depth <= limits.max_depth,
                    iv == value@->Array_0,
                    items@.len() <= limits.max_collection_len,
                    iv.len() == items@.len(),
                    forall|j: int| 0 <= j < iv.len() ==> #[trigger] iv[j] == items@[j]@,
                    decode_items(iv, path@, (depth + 1) as nat, *limits, i as nat) matches Ok(ds) && ds.len()
                        == out@.len() && forall|j: int| 0 <= j < ds.len() ==> #[trigger] out@[j]@ == ds[j],
                decreases items@.len() - i,
            {
                proof {
                    assert(decreases_to!(*value => value->Array_0));
                    assert(decreases_to!(*items => items@));
                    assert(decreases_to!(items@ => items@[i as int]));
                }
                let p = path.index(i);
                match value_to_document(&items[i], &p, depth + 1, limits) {
                    Ok(d) => {
                        out.push(d);
                    },
                    Err(e) => {
                        proof {
                            lemma_decode_items_err(iv, path@, (depth + 1) as nat, *limits, i as nat, iv.len());
                        }
                        return Err(e);
                    },
                }
                i = i + 1;
            }
            let r = Document::List(out);
            proof {
                lemma_view_parts(r);
                let ds = decode_items(iv, path@, (depth + 1) as nat, *limits, iv.len())->Ok_0;
                assert(r@->List_0 =~= ds);
            }
            Ok(r)
        },
        JsonValue::Object(es) => {
            if es.len() > limits.max_collection_len {
                return Err(
                    DecodeError::CollectionTooLarge {
                        path: path.clone(),
                        limit: limits.max_collection_len,
                        actual: es.len(),
                    },
                );
            }
            let ghost ev = value@->Object_0;
            let mut out: Vec<(String, Document)> = Vec::new();
            let mut i: usize = 0;
            while i < es.len()
                invariant
                    i <= es@.len(),
                    *value == JsonValue::Object(*es),
                    depth <= limits.max_depth,
                    ev == value@->Object_0,
                    es@.len() <= limits.max_collection_len,
                    ev.len() == es@.len(),
                    forall|j: int| 0 <= j < ev.len() ==> #[trigger] ev[j] == (es@[j].0@, es@[j].1@),
                    decode_entries(ev, path@, (depth + 1) as nat, *limits, i as nat) matches Ok(ds) && ds.len()
                        == out@.len() && forall|j: int|
                        0 <= j < ds.len() ==> #[trigger] out@[j].0@ == ds[j].0 && out@[j].1@ == ds[j].1,
                decreases es@.len() - i,
            {
                proof {
                    assert(decreases_to!(*value => value->Object_0));
                    assert(decreases_to!(*es => es@));
                    assert(decreases_to!(es@ => es@[i as int]));
                    assert(decreases_to!(es@[i as int] => es@[i as int].1));
                }
                let p = path.field(es[i].0.as_str());
                match value_to_document(&es[i].1, &p, depth + 1, limits) {
                    Ok(d) => {
                        let k = es[i].0.clone();
                        proof {
                            let ds = decode_entries(ev, path@, (depth + 1) as nat, *limits, i as nat)->Ok_0;
                            let ds2 = decode_entries(ev, path@, (depth + 1) as nat, *limits, (i + 1) as nat)->Ok_0;
                            assert(ds2 == ds.push((ev[i as int].0, d@)));
                            assert(k@ == ev[i as int].0);
                        }
                        out.push((k, d));
                    },
                    Err(e) => {
                        proof {
                            lemma_decode_entries_err(ev, path@, (depth + 1) as nat, *limits, i as nat, ev.len());
                        }
                        return Err(e);
                    },
                }
                i = i + 1;
            }
            let r = Document::Mapping(out);
            proof {
                lemma_view_parts(r);
                let ds = decode_entries(ev, path@, (depth + 1) as nat, *limits, ev.len())->Ok_0;
                assert(r@->Mapping_0 =~= ds);
            }
            Ok(r)
        },
    }
}

/// A failing item makes every longer run of items fail with it.
proof fn lemma_decode_items_err(
    items: Seq<JsonView>,
    path: Seq<SegView>,
    depth: nat,
    limits: DecodeLimits,
    i: nat,
    n: nat,
)
    requires
        i < n <= items.len(),
        decode_items(items, path, depth, limits, i) is Ok,
        decode_spec(items[i as int], path.push(SegView::Index(i as usize)), depth, limits) is Err,
    ensures
        decode_items(items, path, depth, limits, n) == Err::<Seq<DocView>, DecodeFailure>(
            decode_spec(items[i as int], path.push(SegView::Index(i as usize)), depth, limits)->Err_0,
        ),
    decreases n,
{
    if n > i + 1 {
        lemma_decode_items_err(items, path, depth, limits, i, (n - 1) as nat);
    }
}

/// A failing entry makes every longer run of entries fail with it.
proof fn lemma_decode_entries_err(
    es: Seq<(Seq<char>, JsonView)>,
    path: Seq<SegView>,
    depth: nat,
    limits: DecodeLimits,
    i: nat,
    n: nat,
)
    requires
        i < n <= es.len(),
        decode_entries(es, path, depth, limits, i) is Ok,
        decode_spec(es[i as int].1, path.push(SegView::Field(es[i as int].0)), depth, limits) is Err,
    ensures
        decode_entries(es, path, depth, limits, n) == Err::<Seq<(Seq<char>, DocView)>, DecodeFailure>(
            decode_spec(es[i as int].1, path.push(SegView::Field(es[i as int].0)), depth, limits)->Err_0,
        ),
    decreases n,
{
    if n > i + 1 {
        lemma_decode_entries_err(es, path, depth, limits, i, (n - 1) as nat);
    }
}

#[verifier::external_type_specification]
#[verifier::external_body]
pub struct ExJsonValue(serde_json::Value);

/// What `serde_json::from_str::<serde_json::Value>` makes of `text`: the
/// parsed value, or the error's `Display` text with its line and column.
pub uninterp spec fn json_parse(text: Seq<char>) -> Result<JsonView, (Seq<char>, usize, usize)>;

/// `serde_json::from_str::<serde_json::Value>`, its value converted variant
/// by variant and its error taken apart into text, line and column. The
/// result is `json_parse` of the text, which is all that is claimed: the
/// parser itself is `serde_json`'s.
#[verifier::external_body]
fn parse_json_text(text: &str) -> (r: Result<JsonValue, (String, usize, usize)>)
    ensures
        match r {
            Ok(v) => json_parse(text@) == Ok::<JsonView, (Seq<char>, usize, usize)>(v@),
            Err(e) => json_parse(text@) == Err::<JsonView, (Seq<char>, usize, usize)>((e.0@, e.1, e.2)),
        },
{
    match serde_json::from_str::<serde_json::Value>(text) {
        Ok(v) => Ok(json_from_serde(v)),
        Err(e) => Err((e.to_string(), e.line(), e.column())),
    }
}

/// Converts a `serde_json::Value` into a `JsonValue`, one variant for one:
/// a number is told apart by `serde_json`'s own `as_u64` and `as_i64`, a
/// double kept by its bits. Nothing is claimed of it beyond what
/// `parse_json_text` states.
#[verifier::external_body]
fn json_from_serde(v: Value) -> JsonValue {
    match v {
        Value::Null => JsonValue::Null,
        Value::Bool(b) => JsonValue::Bool(b),
        Value::Number(n) => JsonValue::Number(match (n.as_u64(), n.as_i64()) {
            (Some(u), _) => JsonNumber::PosInt(u),
            (None, Some(i)) => JsonNumber::NegInt(i),
            (None, None) => JsonNumber::Float(n.as_f64().map_or(0, |x| x.to_bits())),
        }),
        Value::String(s) => JsonValue::String(s),
        Value::Array(items) => JsonValue::Array(items.into_iter().map(json_from_serde).collect()),
        Value::Object(m) => JsonValue::Object(m.into_iter().map(|(k, x)| (k, json_from_serde(x))).collect()),
    }
}

/// Decodes JSON text into a document under `limits`. The input's length in
/// bytes is checked before any parsing: past `max_input_bytes` it is
/// `InputTooLarge`. Then text that `serde_json` does not accept is
/// `Syntax`, with `serde_json`'s message, line and column; a parsed value
/// is decoded as `decode_value` decodes it.
pub fn decode_with_limits(json: &str, limits: &DecodeLimits) -> (r: Result<Document, DecodeError>)
    ensures
        json.len() > limits.max_input_bytes ==> (r matches Err(e) && e@ == (DecodeFailure::InputTooLarge {
            limit: limits.max_input_bytes,
            actual: json.len(),
        })),
        json.len() <= limits.max_input_bytes ==> match json_parse(json@) {
            Err(p) => r matches Err(e) && e@ == (DecodeFailure::Syntax { message: p.0, line: p.1, column: p.2 }),
            Ok(v) => match decode_spec(v, Seq::empty(), 0, *limits) {
                Ok(d) => r matches Ok(x) && x@ == d,
                Err(f) => r matches Err(e) && e@ == f,
            },
        },
{
    check_input_size(json.len(), limits)?;
    match parse_json_text(json) {
        Err(p) => Err(DecodeError::Syntax { message: p.0, line: p.1, column: p.2 }),
        Ok(value) => decode_value(&value, limits),
    }
}

/// Decodes JSON text into a document under `DecodeLimits::default()`.
pub fn decode(json: &str) -> (r: Result<Document, DecodeError>)
    ensures
        json.len() > 10485760 ==> (r matches Err(e) && e@ == (DecodeFailure::InputTooLarge {
            limit: 10485760,
            actual: json.len(),
        })),
        json.len() <= 10485760 ==> match json_parse(json@) {
            Err(p) => r matches Err(e) && e@ == (DecodeFailure::Syntax { message: p.0, line: p.1, column: p.2 }),
            Ok(v) => match decode_spec(v, Seq::empty(), 0, default_limits()) {
                Ok(d) => r matches Ok(x) && x@ == d,
                Err(f) => r matches Err(e) && e@ == f,
            },
        },
{
    let limits = DecodeLimits::default();
    decode_with_limits(json, &limits)
}

/// Decodes a parsed JSON value into a document under `limits`, starting at
/// the root at depth zero.
pub fn decode_value(value: &JsonValue, limits: &DecodeLimits) -> (r: Result<Document, DecodeError>)
    ensures
        match decode_spec(value@, Seq::empty(), 0, *limits) {
            Ok(d) => r matches Ok(x) && x@ == d,
            Err(f) => r matches Err(e) && e@ == f,
        },
{
    let root = Path::root();
    value_to_document(value, &root, 0, limits)
}

/// The standard base64 alphabet: `A`-`Z`, `a`-`z`, `0`-`9`, `+`, `/`.
pub open spec fn b64_char(v: int) -> char {
    if v < 26 {
        (v + 65) as char
    } else if v < 52 {
        (v + 71) as char
    } else if v < 62 {
        (v - 4) as char
    } else if v == 62 {
        '+'
    } else {
        '/'
    }
}

/// RFC 4648 base64 with the standard alphabet and `=` padding.
pub open spec fn base64_text(b: Seq<u8>) -> Seq<char>
    decreases b.len(),
{
    if b.len() == 0 {
        Seq::empty()
    } else {
        let b0 = b[0] as int;
        let b1 = if b.len() > 1 { b[1] as int } else { 0 };
        let b2 = if b.len() > 2 { b[2] as int } else { 0 };
        if b.len() == 1 {
            seq![b64_char(b0 / 4), b64_char((b0 % 4) * 16), '=', '=']
        } else if b.len() == 2 {
            seq![b64_char(b0 / 4), b64_char((b0 % 4) * 16 + b1 / 16), b64_char((b1 % 16) * 4), '=']
        } else {
            seq![
                b64_char(b0 / 4),
                b64_char((b0 % 4) * 16 + b1 / 16),
                b64_char((b1 % 16) * 4 + b2 / 64),
                b64_char(b2 % 64),
            ] + base64_text(b.subrange(3, b.len() as int))
        }
    }
}

/// The encoded length of `n` bytes fits in `usize`, as the encoder
/// requires.
pub open spec fn base64_fits(n: nat) -> bool {
    (n / 3) * 4 + (if n % 3 > 0 { 4int } else { 0int }) <= usize::MAX
}

/// `base64::engine::general_purpose::STANDARD.encode`: RFC 4648 base64
/// with the standard alphabet and padding. The encoder panics when the
/// encoded length overflows `usize`, so that input is excluded.
#[verifier::external_body]
fn base64_standard(bytes: &[u8]) -> (r: String)
    requires
        base64_fits(bytes@.len()),
    ensures
        r@ == base64_text(bytes@),
{
    <base64::engine::GeneralPurpose as base64::Engine>::encode(&base64::engine::general_purpose::STANDARD, bytes)
}

/// Every byte string in the tree can be base64-encoded.
pub open spec fn doc_bytes_fit(d: DocView) -> bool
    decreases d, 0nat,
{
    match d {
        DocView::Bytes(b) => base64_fits(b.len()),
        DocView::List(items) => items_fit(items, items.len()),
        DocView::Mapping(es) => entries_fit(es, es.len()),
        _ => true,
    }
}

pub open spec fn items_fit(items: Seq<DocView>, n: nat) -> bool
    decreases items, n,
{
    if n == 0 || n > items.len() {
        true
    } else {
        proof {
            assert(decreases_to!(items => items[n - 1]));
        }
        items_fit(items, (n - 1) as nat) && doc_bytes_fit(items[n - 1])
    }
}

pub open spec fn entries_fit(es: Seq<(Seq<char>, DocView)>, n: nat) -> bool
    decreases es, n,
{
    if n == 0 || n > es.len() {
        true
    } else {
        proof {
            assert(decreases_to!(es => es[n - 1]));
            assert(decreases_to!(es[n - 1] => es[n - 1].1));
        }
        entries_fit(es, (n - 1) as nat) && doc_bytes_fit(es[n - 1].1)
    }
}

pub proof fn lemma_items_fit(items: Seq<DocView>, n: nat, i: int)
    requires
        n <= items.len(),
        items_fit(items, n),
        0 <= i < n,
    ensures
        doc_bytes_fit(items[i]),
    decreases n,
{
    if i < n - 1 {
        lemma_items_fit(items, (n - 1) as nat, i);
    }
}

pub proof fn lemma_entries_fit(es: Seq<(Seq<char>, DocView)>, n: nat, i: int)
    requires
        n <= es.len(),
        entries_fit(es, n),
        0 <= i < n,
    ensures
        doc_bytes_fit(es[i].1),
    decreases n,
{
    if i < n - 1 {
        lemma_entries_fit(es, (n - 1) as nat, i);
    }
}

/// Whether every byte string in `doc` can be base64-encoded.
pub fn bytes_fit_base64(doc: &Document) -> (r: bool)
    ensures
        r == doc_bytes_fit(doc@),
    decreases doc,
{
    proof {
        lemma_view_parts(*doc);
    }
    match doc {
        Document::Bytes(b) => {
            let n = b.len();
            let q = n / 3;
            if q > usize::MAX / 4 {
                false
            } else {
                let c = q * 4;
                if n % 3 > 0 {
                    c <= usize::MAX - 4
                } else {
                    true
                }
            }
        },
        Document::List(items) => {
            let ghost iv = doc@->List_0;
            let mut i: usize = 0;
            while i < items.len()
                invariant
                    i <= items@.len(),
                    *doc == Document::List(*items),
                    iv == doc@->List_0,
                    iv.len() == items@.len(),
                    forall|j: int| 0 <= j < iv.len() ==> #[trigger] iv[j] == items@[j]@,
                    items_fit(iv, i as nat),
                decreases items@.len() - i,
            {
                proof {
                    assert(decreases_to!(*doc => doc->List_0));
                    assert(decreases_to!(*items => items@));
                    assert(decreases_to!(items@ => items@[i as int]));
                }
                if !bytes_fit_base64(&items[i]) {
                    proof {
                        if items_fit(iv, iv.len()) {
                            lemma_items_fit(iv, iv.len(), i as int);
                        }
                    }
                    return false;
                }
                i = i + 1;
            }
            true
        },
        Document::Mapping(es) => {
            let ghost ev = doc@->Mapping_0;
            let mut i: usize = 0;
            while i < es.len()
                invariant
                    i <= es@.len(),
                    *doc == Document::Mapping(*es),
                    ev == doc@->Mapping_0,
                    ev.len() == es@.len(),
                    forall|j: int| 0 <= j < ev.len() ==> #[trigger] ev[j] == (es@[j].0@, es@[j].1@),
                    entries_fit(ev, i as nat),
                decreases es@.len() - i,
            {
                proof {
                    assert(decreases_to!(*doc => doc->Mapping_0));
                    assert(decreases_to!(*es => es@));
                    assert(decreases_to!(es@ => es@[i as int]));
                    assert(decreases_to!(es@[i as int] => es@[i as int].1));
                }
                if !bytes_fit_base64(&es[i].1) {
                    proof {
                        if entries_fit(ev, ev.len()) {
                            lemma_entries_fit(ev, ev.len(), i as int);
                        }
                    }
                    return false;
                }
                i = i + 1;
            }
            true
        },
        _ => true,
    }
}

#[verifier::external_type_specification]
#[verifier::external_body]
pub struct ExJsonError(serde_json::Error);

/// `serde_json::Error`'s `Display` text. Nothing is stated of the text.
#[verifier::external_body]
fn json_error_text(e: &serde_json::Error) -> (r: String) {
    e.to_string()
}

/// Failures encoding a document as JSON.
#[derive(Debug)]
pub enum EncodeError {
    NonFiniteFloat { path: Path, kind: &'static str },
    Internal(serde_json::Error),
}

impl ErrorCode for EncodeError {
    open spec fn code_spec(&self) -> Seq<char> {
        match self {
            EncodeError::NonFiniteFloat { .. } => "json.encode.non-finite-float"@,
            EncodeError::Internal(_) => "json.encode.internal"@,
        }
    }

    fn code(&self) -> (r: &'static str) {
        match self {
            EncodeError::NonFiniteFloat { .. } => "json.encode.non-finite-float",
            EncodeError::Internal(_) => "json.encode.internal",
        }
    }
}

impl EncodeError {
    /// The human-readable message of this error; for `Internal`, the prefix
    /// followed by `serde_json`'s own text.
    pub fn message(&self) -> (r: String)
        ensures
            match self {
                EncodeError::NonFiniteFloat { path, kind } => r@ == "cannot encode non-finite float ("@ + kind@
                    + ") at "@ + path_text(path@),
                EncodeError::Internal(_) => exists|t: Seq<char>| r@ == "internal JSON encoding error: "@ + t,
            },
    {
        let mut r = String::new();
        match self {
            EncodeError::NonFiniteFloat { path, kind } => {
                push_str(&mut r, "cannot encode non-finite float (");
                push_str(&mut r, kind);
                push_str(&mut r, ") at ");
                push_str(&mut r, path.to_string().as_str());
                proof {
                    assert(r@ =~= "cannot encode non-finite float ("@ + kind@ + ") at "@ + path_text(path@));
                }
            },
            EncodeError::Internal(e) => {
                push_str(&mut r, "internal JSON encoding error: ");
                let t = json_error_text(e);
                push_str(&mut r, t.as_str());
            },
        }
        r
    }
}

/// An object's entries with `k` set to `v`: replaced in place where the
/// key is present, appended otherwise.
pub open spec fn obj_insert(es: Seq<(Seq<char>, JsonView)>, k: Seq<char>, v: JsonView) -> Seq<(Seq<char>, JsonView)> {
    if exists|i: int| 0 <= i < es.len() && #[trigger] es[i].0 == k {
        let i = choose|i: int| 0 <= i < es.len() && #[trigger] es[i].0 == k;
        es.update(i, (k, v))
    } else {
        es.push((k, v))
    }
}

/// The JSON value a document encodes to at `path`, or the path and kind of
/// the first non-finite double.
pub open spec fn encode_spec(d: DocView, path: Seq<SegView>) -> Result<JsonView, (Seq<SegView>, Seq<char>)>
    decreases d, 0nat,
{
    match d {
        DocView::Null => Ok(JsonView::Null),
        DocView::Bool(b) => Ok(JsonView::Bool(b)),
        DocView::Integer(i) => Ok(
            JsonView::Number(
                if i < 0 {
                    JsonNumber::NegInt(i as i64)
                } else {
                    JsonNumber::PosInt(i as u64)
                },
            ),
        ),
        DocView::Float(f) => if f64_is_nan(f) {
            Err((path, "NaN"@))
        } else if f64_is_infinite(f) {
            Err((path, "infinite"@))
        } else {
            Ok(JsonView::Number(JsonNumber::Float(f)))
        },
        DocView::String(s) => Ok(JsonView::String(s)),
        DocView::Bytes(b) => Ok(JsonView::String(base64_text(b))),
        DocView::List(items) => match encode_items(items, path, items.len()) {
            Ok(vs) => Ok(JsonView::Array(vs)),
            Err(e) => Err(e),
        },
        DocView::Mapping(es) => match encode_entries(es, path, es.len()) {
            Ok(vs) => Ok(JsonView::Object(vs)),
            Err(e) => Err(e),
        },
    }
}

pub open spec fn encode_items(items: Seq<DocView>, path: Seq<SegView>, n: nat) -> Result<
    Seq<JsonView>,
    (Seq<SegView>, Seq<char>),
>
    decreases items, n,
{
    if n == 0 || n > items.len() {
        Ok(Seq::empty())
    } else {
        proof {
            assert(decreases_to!(items => items[n - 1]));
        }
        match encode_items(items, path, (n - 1) as nat) {
            Err(e) => Err(e),
            Ok(vs) => match encode_spec(items[n - 1], path.push(SegView::Index((n - 1) as usize))) {
                Err(e) => Err(e),
                Ok(v) => Ok(vs.push(v)),
            },
        }
    }
}

pub open spec fn encode_entries(es: Seq<(Seq<char>, DocView)>, path: Seq<SegView>, n: nat) -> Result<
    Seq<(Seq<char>, JsonView)>,
    (Seq<SegView>, Seq<char>),
>
    decreases es, n,
{
    if n == 0 || n > es.len() {
        Ok(Seq::empty())
    } else {
        proof {
            assert(decreases_to!(es => es[n - 1]));
            assert(decreases_to!(es[n - 1] => es[n - 1].1));
        }
        match encode_entries(es, path, (n - 1) as nat) {
            Err(e) => Err(e),
            Ok(vs) => match encode_spec(es[n - 1].1, path.push(SegView::Field(es[n - 1].0))) {
                Err(e) => Err(e),
                Ok(v) => Ok(obj_insert(vs, es[n - 1].0, v)),
            },
        }
    }
}

/// No key occurs twice.
pub open spec fn keys_distinct(es: Seq<(Seq<char>, JsonView)>) -> bool {
    forall|i: int, j: int| 0 <= i < j < es.len() ==> #[trigger] es[i].0 != #[trigger] es[j].0
}

pub proof fn lemma_obj_insert_at(es: Seq<(Seq<char>, JsonView)>, k: Seq<char>, v: JsonView, i: int)
    requires
        keys_distinct(es),
        0 <= i < es.len(),
        es[i].0 == k,
    ensures
        obj_insert(es, k, v) == es.update(i, (k, v)),
        keys_distinct(obj_insert(es, k, v)),
{
    let c = choose|c: int| 0 <= c < es.len() && #[trigger] es[c].0 == k;
    assert(es[c].0 == k);
    if c != i {
        if c < i {
            assert(es[c].0 != es[i].0);
        } else {
            assert(es[i].0 != es[c].0);
        }
    }
    let r = es.update(i, (k, v));
    assert forall|a: int, b: int| 0 <= a < b < r.len() implies #[trigger] r[a].0 != #[trigger] r[b].0 by {
        assert(r[a].0 == es[a].0);
        assert(r[b].0 == es[b].0);
    }
}

pub proof fn lemma_obj_insert_new(es: Seq<(Seq<char>, JsonView)>, k: Seq<char>, v: JsonView)
    requires
        keys_distinct(es),
        forall|i: int| 0 <= i < es.len() ==> es[i].0 != k,
    ensures
        obj_insert(es, k, v) == es.push((k, v)),
        keys_distinct(obj_insert(es, k, v)),
{
    let r = es.push((k, v));
    assert forall|a: int, b: int| 0 <= a < b < r.len() implies #[trigger] r[a].0 != #[trigger] r[b].0 by {
        if b == es.len() {
            assert(r[a].0 == es[a].0);
        } else {
            assert(r[a] == es[a]);
            assert(r[b] == es[b]);
        }
    }
}

/// The views of a list of object entries.
pub open spec fn object_view(v: Seq<(String, JsonValue)>) -> Seq<(Seq<char>, JsonView)> {
    v.map_values(|e: (String, JsonValue)| (e.0@, e.1@))
}

fn document_to_value(doc: &Document, path: &Path) -> (r: Result<JsonValue, EncodeError>)
    requires
        doc_bytes_fit(doc@),
    ensures
        match encode_spec(doc@, path@) {
            Ok(v) => r matches Ok(x) && x@ == v,
            Err(f) => r matches Err(e) && (e matches EncodeError::NonFiniteFloat { path: p, kind } && p@ == f.0
                && kind@ == f.1),
        },
    decreases doc,
{
    proof {
        lemma_view_parts(*doc);
    }
    match doc {
        Document::Null => Ok(JsonValue::Null),
        Document::Bool(b) => Ok(JsonValue::Bool(*b)),
        Document::Integer(i) => Ok(
            JsonValue::Number(
                if *i < 0 {
                    JsonNumber::NegInt(*i)
                } else {
                    JsonNumber::PosInt(*i as u64)
                },
            ),
        ),
        Document::Float(f) => {
            if is_nan(*f) {
                return Err(EncodeError::NonFiniteFloat { path: path.clone(), kind: "NaN" });
            }
            if is_infinite(*f) {
                return Err(EncodeError::NonFiniteFloat { path: path.clone(), kind: "infinite" });
            }
            Ok(JsonValue::Number(JsonNumber::Float(*f)))
        },
        Document::String(s) => Ok(JsonValue::String(s.clone())),
        Document::Bytes(b) => Ok(JsonValue::String(base64_standard(b.as_slice()))),
        Document::List(items) => {
            let ghost iv = doc@->List_0;
            let mut out: Vec<JsonValue> = Vec::new();
            let mut i: usize = 0;
            while i < items.len()
                invariant
                    i <= items@.len(),
                    *doc == Document::List(*items),
                    iv == doc@->List_0,
                    iv.len() == items@.len(),
                    forall|j: int| 0 <= j < iv.len() ==> #[trigger] iv[j] == items@[j]@,
                    items_fit(iv, iv.len()),
                    encode_items(iv, path@, i as nat) matches Ok(vs) && vs.len() == out@.len() && forall|j: int|
                        0 <= j < vs.len() ==> #[trigger] out@[j]@ == vs[j],
                decreases items@.len() - i,
            {
                proof {
                    assert(decreases_to!(*doc => doc->List_0));
                    assert(decreases_to!(*items => items@));
                    assert(decreases_to!(items@ => items@[i as int]));
                    lemma_items_fit(iv, iv.len(), i as int);
                }
                let p = path.index(i);
                match document_to_value(&items[i], &p) {
                    Ok(v) => out.push(v),
                    Err(e) => {
                        proof {
                            lemma_encode_items_err(iv, path@, i as nat, iv.len());
                        }
                        return Err(e);
                    },
                }
                i = i + 1;
            }
            let r = JsonValue::Array(out);
            proof {
                lemma_json_parts(r);
                assert(r@->Array_0 =~= encode_items(iv, path@, iv.len())->Ok_0);
            }
            Ok(r)
        },
        Document::Mapping(es) => {
            let ghost ev = doc@->Mapping_0;
            let mut out: Vec<(String, JsonValue)> = Vec::new();
            let mut i: usize = 0;
            proof {
                assert(object_view(out@) =~= Seq::<(Seq<char>, JsonView)>::empty());
            }
            while i < es.len()
                invariant
                    i <= es@.len(),
                    *doc == Document::Mapping(*es),
                    ev == doc@->Mapping_0,
                    ev.len() == es@.len(),
                    forall|j: int| 0 <= j < ev.len() ==> #[trigger] ev[j] == (es@[j].0@, es@[j].1@),
                    entries_fit(ev, ev.len()),
                    encode_entries(ev, path@, i as nat) == Ok::<Seq<(Seq<char>, JsonView)>, (Seq<SegView>, Seq<char>)>(
                        object_view(out@),
                    ),
                    keys_distinct(object_view(out@)),
                decreases es@.len() - i,
            {
                proof {
                    assert(decreases_to!(*doc => doc->Mapping_0));
                    assert(decreases_to!(*es => es@));
                    assert(decreases_to!(es@ => es@[i as int]));
                    assert(decreases_to!(es@[i as int] => es@[i as int].1));
                    lemma_entries_fit(ev, ev.len(), i as int);
                }
                let p = path.field(es[i].0.as_str());
                match document_to_value(&es[i].1, &p) {
                    Ok(v) => {
                        let ghost before = object_view(out@);
                        let key_str = es[i].0.as_str();
                        let mut k: usize = 0;
                        while k < out.len() && !str_eq(out[k].0.as_str(), key_str)
                            invariant
                                k <= out@.len(),
                                key_str@ == es@[i as int].0@,
                                before == object_view(out@),
                                forall|j: int| 0 <= j < k ==> before[j].0 != es@[i as int].0@,
                            decreases out@.len() - k,
                        {
                            k = k + 1;
                        }
                        let key = es[i].0.clone();
                        if k < out.len() {
                            proof {
                                lemma_obj_insert_at(before, es@[i as int].0@, v@, k as int);
                            }
                            out.set(k, (key, v));
                            proof {
                                assert(object_view(out@) =~= before.update(k as int, (es@[i as int].0@, v@)));
                            }
                        } else {
                            proof {
                                lemma_obj_insert_new(before, es@[i as int].0@, v@);
                            }
                            out.push((key, v));
                            proof {
                                assert(object_view(out@) =~= before.push((es@[i as int].0@, v@)));
                            }
                        }
                    },
                    Err(e) => {
                        proof {
                            lemma_encode_entries_err(ev, path@, i as nat, ev.len());
                        }
                        return Err(e);
                    },
                }
                i = i + 1;
            }
            let r = JsonValue::Object(out);
            proof {
                lemma_json_parts(r);
                assert(r@->Object_0 =~= object_view(out@));
            }
            Ok(r)
        },
    }
}

proof fn lemma_encode_items_err(items: Seq<DocView>, path: Seq<SegView>, i: nat, n: nat)
    requires
        i < n <= items.len(),
        encode_items(items, path, i) is Ok,
        encode_spec(items[i as int], path.push(SegView::Index(i as usize))) is Err,
    ensures
        encode_items(items, path, n) == Err::<Seq<JsonView>, (Seq<SegView>, Seq<char>)>(
            encode_spec(items[i as int], path.push(SegView::Index(i as usize)))->Err_0,
        ),
    decreases n,
{
    if n > i + 1 {
        lemma_encode_items_err(items, path, i, (n - 1) as nat);
    }
}

proof fn lemma_encode_entries_err(es: Seq<(Seq<char>, DocView)>, path: Seq<SegView>, i: nat, n: nat)
    requires
        i < n <= es.len(),
        encode_entries(es, path, i) is Ok,
        encode_spec(es[i as int].1, path.push(SegView::Field(es[i as int].0))) is Err,
    ensures
        encode_entries(es, path, n) == Err::<Seq<(Seq<char>, JsonView)>, (Seq<SegView>, Seq<char>)>(
            encode_spec(es[i as int].1, path.push(SegView::Field(es[i as int].0)))->Err_0,
        ),
    decreases n,
{
    if n > i + 1 {
        lemma_encode_entries_err(es, path, i, (n - 1) as nat);
    }
}

/// Encodes a document as a JSON value, starting at the root: `Bytes`
/// become standard base64 strings, a map's duplicate keys collapse to the
/// last value at the first key's position, and a NaN or infinite double is
/// refused with its path.
pub fn encode_value(doc: &Document) -> (r: Result<JsonValue, EncodeError>)
    requires
        doc_bytes_fit(doc@),
    ensures
        match encode_spec(doc@, Seq::empty()) {
            Ok(v) => r matches Ok(x) && x@ == v,
            Err(f) => r matches Err(e) && (e matches EncodeError::NonFiniteFloat { path: p, kind } && p@ == f.0
                && kind@ == f.1),
        },
{
    let root = Path::root();
    document_to_value(doc, &root)
}

/// What a document comes back as from encoding then decoding: each byte
/// string becomes the string of its standard base64 text; all else is
/// kept.
pub open spec fn as_text(d: DocView) -> DocView
    decreases d, 0nat,
{
    match d {
        DocView::Bytes(b) => DocView::String(base64_text(b)),
        DocView::List(items) => DocView::List(as_text_items(items, items.len())),
        DocView::Mapping(es) => DocView::Mapping(as_text_entries(es, es.len())),
        _ => d,
    }
}

pub open spec fn as_text_items(items: Seq<DocView>, n: nat) -> Seq<DocView>
    decreases items, n,
{
    if n == 0 || n > items.len() {
        Seq::empty()
    } else {
        proof {
            assert(decreases_to!(items => items[n - 1]));
        }
        as_text_items(items, (n - 1) as nat).push(as_text(items[n - 1]))
    }
}

pub open spec fn as_text_entries(es: Seq<(Seq<char>, DocView)>, n: nat) -> Seq<(Seq<char>, DocView)>
    decreases es, n,
{
    if n == 0 || n > es.len() {
        Seq::empty()
    } else {
        proof {
            assert(decreases_to!(es => es[n - 1]));
            assert(decreases_to!(es[n - 1] => es[n - 1].1));
        }
        as_text_entries(es, (n - 1) as nat).push((es[n - 1].0, as_text(es[n - 1].1)))
    }
}

/// A document that survives encoding then decoding under `limits`, met at
/// nesting `depth`: no repeated map keys, only finite doubles, and within
/// every limit, a byte string's base64 text counted as its string.
pub open spec fn round_trips(d: DocView, depth: nat, limits: DecodeLimits) -> bool
    decreases d, 0nat,
{
    &&& depth <= limits.max_depth
    &&& match d {
        DocView::Integer(i) => i64::MIN <= i <= i64::MAX,
        DocView::Float(f) => !f64_is_nan(f) && !f64_is_infinite(f),
        DocView::String(s) => s.len() <= limits.max_string_len,
        DocView::Bytes(b) => base64_text(b).len() <= limits.max_string_len,
        DocView::List(items) => items.len() <= limits.max_collection_len && items_round_trip(
            items,
            depth + 1,
            limits,
            items.len(),
        ),
        DocView::Mapping(es) => es.len() <= limits.max_collection_len && doc_keys_distinct(es)
            && entries_round_trip(es, depth + 1, limits, es.len()),
        _ => true,
    }
}

pub open spec fn items_round_trip(items: Seq<DocView>, depth: nat, limits: DecodeLimits, n: nat) -> bool
    decreases items, n,
{
    if n == 0 || n > items.len() {
        true
    } else {
        proof {
            assert(decreases_to!(items => items[n - 1]));
        }
        items_round_trip(items, depth, limits, (n - 1) as nat) && round_trips(items[n - 1], depth, limits)
    }
}

pub open spec fn entries_round_trip(es: Seq<(Seq<char>, DocView)>, depth: nat, limits: DecodeLimits, n: nat) -> bool
    decreases es, n,
{
    if n == 0 || n > es.len() {
        true
    } else {
        proof {
            assert(decreases_to!(es => es[n - 1]));
            assert(decreases_to!(es[n - 1] => es[n - 1].1));
        }
        entries_round_trip(es, depth, limits, (n - 1) as nat) && round_trips(es[n - 1].1, depth, limits)
    }
}

/// No key occurs twice among a document map's entries.
pub open spec fn doc_keys_distinct(es: Seq<(Seq<char>, DocView)>) -> bool {
    forall|i: int, j: int| 0 <= i < j < es.len() ==> #[trigger] es[i].0 != #[trigger] es[j].0
}

proof fn lemma_round_trip_items(
    items: Seq<DocView>,
    path: Seq<SegView>,
    depth: nat,
    limits: DecodeLimits,
    n: nat,
)
    requires
        n <= items.len(),
        items_round_trip(items, depth, limits, n),
    ensures
        encode_items(items, path, n) matches Ok(vs) && decode_items(vs, path, depth, limits, n) == Ok::<
            Seq<DocView>,
            DecodeFailure,
        >(as_text_items(items, n)),
    decreases items, n,
{
    if n > 0 {
        lemma_round_trip_items(items, path, depth, limits, (n - 1) as nat);
        let vs0 = encode_items(items, path, (n - 1) as nat)->Ok_0;
        assert(decreases_to!(items => items[n - 1]));
        let p = path.push(SegView::Index((n - 1) as usize));
        lemma_round_trip(items[n - 1], p, depth, limits);
        let v = encode_spec(items[n - 1], p)->Ok_0;
        let vs = vs0.push(v);
        lemma_encode_items_len(items, path, (n - 1) as nat);
        lemma_decode_items_prefix(vs0, vs, path, depth, limits, (n - 1) as nat);
        assert(vs[n - 1] == v);
    }
}

proof fn lemma_encode_items_len(items: Seq<DocView>, path: Seq<SegView>, n: nat)
    requires
        n <= items.len(),
        encode_items(items, path, n) is Ok,
    ensures
        encode_items(items, path, n)->Ok_0.len() == n,
    decreases n,
{
    if n > 0 {
        lemma_encode_items_len(items, path, (n - 1) as nat);
    }
}

/// Decoding a prefix of items only looks at that prefix.
proof fn lemma_decode_items_prefix(
    a: Seq<JsonView>,
    b: Seq<JsonView>,
    path: Seq<SegView>,
    depth: nat,
    limits: DecodeLimits,
    n: nat,
)
    requires
        n <= a.len(),
        n <= b.len(),
        forall|i: int| 0 <= i < n ==> a[i] == b[i],
    ensures
        decode_items(a, path, depth, limits, n) == decode_items(b, path, depth, limits, n),
    decreases n,
{
    if n > 0 {
        lemma_decode_items_prefix(a, b, path, depth, limits, (n - 1) as nat);
    }
}

proof fn lemma_decode_entries_prefix(
    a: Seq<(Seq<char>, JsonView)>,
    b: Seq<(Seq<char>, JsonView)>,
    path: Seq<SegView>,
    depth: nat,
    limits: DecodeLimits,
    n: nat,
)
    requires
        n <= a.len(),
        n <= b.len(),
        forall|i: int| 0 <= i < n ==> a[i] == b[i],
    ensures
        decode_entries(a, path, depth, limits, n) == decode_entries(b, path, depth, limits, n),
    decreases n,
{
    if n > 0 {
        lemma_decode_entries_prefix(a, b, path, depth, limits, (n - 1) as nat);
    }
}

proof fn lemma_round_trip_entries(
    es: Seq<(Seq<char>, DocView)>,
    path: Seq<SegView>,
    depth: nat,
    limits: DecodeLimits,
    n: nat,
)
    requires
        n <= es.len(),
        doc_keys_distinct(es),
        entries_round_trip(es, depth, limits, n),
    ensures
        encode_entries(es, path, n) matches Ok(vs) && vs.len() == n && (forall|i: int|
            0 <= i < n ==> #[trigger] vs[i].0 == es[i].0) && decode_entries(vs, path, depth, limits, n) == Ok::<
            Seq<(Seq<char>, DocView)>,
            DecodeFailure,
        >(as_text_entries(es, n)),
    decreases es, n,
{
    if n > 0 {
        lemma_round_trip_entries(es, path, depth, limits, (n - 1) as nat);
        let vs0 = encode_entries(es, path, (n - 1) as nat)->Ok_0;
        assert(decreases_to!(es => es[n - 1]));
        assert(decreases_to!(es[n - 1] => es[n - 1].1));
        let p = path.push(SegView::Field(es[n - 1].0));
        lemma_round_trip(es[n - 1].1, p, depth, limits);
        let v = encode_spec(es[n - 1].1, p)->Ok_0;
        assert forall|i: int| 0 <= i < vs0.len() implies vs0[i].0 != es[n - 1].0 by {
            assert(vs0[i].0 == es[i].0);
        }
        lemma_obj_insert_new_doc(vs0, es[n - 1].0, v);
        let vs = vs0.push((es[n - 1].0, v));
        lemma_decode_entries_prefix(vs0, vs, path, depth, limits, (n - 1) as nat);
        assert(vs[n - 1] == (es[n - 1].0, v));
    }
}

proof fn lemma_obj_insert_new_doc(es: Seq<(Seq<char>, JsonView)>, k: Seq<char>, v: JsonView)
    requires
        forall|i: int| 0 <= i < es.len() ==> es[i].0 != k,
    ensures
        obj_insert(es, k, v) == es.push((k, v)),
{
}

/// A document that `round_trips` encodes, and decodes back to its text
/// form.
pub proof fn lemma_round_trip(d: DocView, path: Seq<SegView>, depth: nat, limits: DecodeLimits)
    requires
        round_trips(d, depth, limits),
    ensures
        encode_spec(d, path) matches Ok(v) && decode_spec(v, path, depth, limits) == Ok::<DocView, DecodeFailure>(
            as_text(d),
        ),
    decreases d, 1nat,
{
    match d {
        DocView::Integer(i) => {
            if i < 0 {
                assert((i as i64) as int == i);
            } else {
                assert((i as u64) as int == i);
                assert((i as u64) <= i64::MAX);
            }
        },
        DocView::List(items) => {
            lemma_round_trip_items(items, path, depth + 1, limits, items.len());
            lemma_encode_items_len(items, path, items.len());
        },
        DocView::Mapping(es) => {
            lemma_round_trip_entries(es, path, depth + 1, limits, es.len());
        },
        _ => {},
    }
}

/// A document holding no byte string, anywhere in the tree.
pub open spec fn bytes_free(d: DocView) -> bool
    decreases d, 0nat,
{
    match d {
        DocView::Bytes(_) => false,
        DocView::List(items) => forall|k: int| 0 <= k < items.len() ==> bytes_free(#[trigger] items[k]),
        DocView::Mapping(es) => forall|k: int| 0 <= k < es.len() ==> bytes_free(#[trigger] es[k].1),
        _ => true,
    }
}

proof fn lemma_as_text_identity(d: DocView)
    requires
        bytes_free(d),
    ensures
        as_text(d) == d,
    decreases d, 1nat,
{
    match d {
        DocView::List(items) => {
            lemma_as_text_items_identity(items, items.len());
            assert(items.take(items.len() as int) =~= items);
        },
        DocView::Mapping(es) => {
            lemma_as_text_entries_identity(es, es.len());
            assert(es.take(es.len() as int) =~= es);
        },
        _ => {},
    }
}

proof fn lemma_as_text_items_identity(items: Seq<DocView>, n: nat)
    requires
        n <= items.len(),
        forall|k: int| 0 <= k < items.len() ==> bytes_free(#[trigger] items[k]),
    ensures
        as_text_items(items, n) == items.take(n as int),
    decreases items, n,
{
    if n > 0 {
        assert(decreases_to!(items => items[n - 1]));
        lemma_as_text_items_identity(items, (n - 1) as nat);
        lemma_as_text_identity(items[n - 1]);
        assert(items.take(n as int) =~= items.take(n - 1).push(items[n - 1]));
    } else {
        assert(items.take(0) =~= Seq::<DocView>::empty());
    }
}

proof fn lemma_as_text_entries_identity(es: Seq<(Seq<char>, DocView)>, n: nat)
    requires
        n <= es.len(),
        forall|k: int| 0 <= k < es.len() ==> bytes_free(#[trigger] es[k].1),
    ensures
        as_text_entries(es, n) == es.take(n as int),
    decreases es, n,
{
    if n > 0 {
        assert(decreases_to!(es => es[n - 1]));
        assert(decreases_to!(es[n - 1] => es[n - 1].1));
        lemma_as_text_entries_identity(es, (n - 1) as nat);
        lemma_as_text_identity(es[n - 1].1);
        assert(es.take(n as int) =~= es.take(n - 1).push(es[n - 1]));
    } else {
        assert(es.take(0) =~= Seq::<(Seq<char>, DocView)>::empty());
    }
}

/// Law: decoding what encoding gives back yields the document with each
/// byte string turned into the string of its base64 text, so a document
/// without byte strings comes back as itself. This holds of every document
/// without repeated map keys, whose doubles are finite and which stays
/// within the decoding limits.
pub proof fn law_decode_encode(d: DocView, limits: DecodeLimits)
    requires
        round_trips(d, 0, limits),
    ensures
        encode_spec(d, Seq::empty()) matches Ok(v) && decode_spec(v, Seq::empty(), 0, limits) == Ok::<
            DocView,
            DecodeFailure,
        >(as_text(d)),
        bytes_free(d) ==> as_text(d) == d,
{
    lemma_round_trip(d, Seq::empty(), 0, limits);
    if bytes_free(d) {
        lemma_as_text_identity(d);
    }
}

/// Every double in `d` is finite: neither NaN nor infinite.
pub open spec fn floats_finite(d: DocView) -> bool
    decreases d, 0nat,
{
    match d {
        DocView::Float(f) => !f64_is_nan(f) && !f64_is_infinite(f),
        DocView::List(items) => items_finite(items, items.len()),
        DocView::Mapping(es) => entries_finite(es, es.len()),
        _ => true,
    }
}

pub open spec fn items_finite(items: Seq<DocView>, n: nat) -> bool
    decreases items, n,
{
    if n == 0 || n > items.len() {
        true
    } else {
        proof {
            assert(decreases_to!(items => items[n - 1]));
        }
        items_finite(items, (n - 1) as nat) && floats_finite(items[n - 1])
    }
}

pub open spec fn entries_finite(es: Seq<(Seq<char>, DocView)>, n: nat) -> bool
    decreases es, n,
{
    if n == 0 || n > es.len() {
        true
    } else {
        proof {
            assert(decreases_to!(es => es[n - 1]));
            assert(decreases_to!(es[n - 1] => es[n - 1].1));
        }
        entries_finite(es, (n - 1) as nat) && floats_finite(es[n - 1].1)
    }
}

proof fn lemma_encode_ok(d: DocView, path: Seq<SegView>)
    ensures
        encode_spec(d, path) is Ok <==> floats_finite(d),
    decreases d, 0nat,
{
    match d {
        DocView::List(items) => lemma_encode_items_ok(items, path, items.len()),
        DocView::Mapping(es) => lemma_encode_entries_ok(es, path, es.len()),
        _ => {},
    }
}

proof fn lemma_encode_items_ok(items: Seq<DocView>, path: Seq<SegView>, n: nat)
    ensures
        encode_items(items, path, n) is Ok <==> items_finite(items, n),
    decreases items, n,
{
    if n > 0 && n <= items.len() {
        assert(decreases_to!(items => items[n - 1]));
        lemma_encode_items_ok(items, path, (n - 1) as nat);
        lemma_encode_ok(items[n - 1], path.push(SegView::Index((n - 1) as usize)));
    }
}

proof fn lemma_encode_entries_ok(es: Seq<(Seq<char>, DocView)>, path: Seq<SegView>, n: nat)
    ensures
        encode_entries(es, path, n) is Ok <==> entries_finite(es, n),
    decreases es, n,
{
    if n > 0 && n <= es.len() {
        assert(decreases_to!(es => es[n - 1]));
        assert(decreases_to!(es[n - 1] => es[n - 1].1));
        lemma_encode_entries_ok(es, path, (n - 1) as nat);
        lemma_encode_ok(es[n - 1].1, path.push(SegView::Field(es[n - 1].0)));
    }
}

/// Law: encoding refuses a document exactly when it holds a NaN or an
/// infinite double, wherever in the tree.
pub proof fn law_encode_refuses_non_finite(d: DocView)
    ensures
        encode_spec(d, Seq::empty()) is Err <==> !floats_finite(d),
{
    lemma_encode_ok(d, Seq::empty());
}

/// A document within the decoding limits when met at nesting `depth`: no
/// deeper than `max_depth`, no string longer than `max_string_len`, no
/// list or map longer than `max_collection_len`.
pub open spec fn within_limits(d: DocView, depth: nat, limits: DecodeLimits) -> bool
    decreases d,
{
    &&& depth <= limits.max_depth
    &&& match d {
        DocView::String(s) => s.len() <= limits.max_string_len,
        DocView::List(items) => items.len() <= limits.max_collection_len && forall|k: int|
            0 <= k < items.len() ==> within_limits(#[trigger] items[k], depth + 1, limits),
        DocView::Mapping(es) => es.len() <= limits.max_collection_len && forall|k: int|
            0 <= k < es.len() ==> within_limits(#[trigger] es[k].1, depth + 1, limits),
        _ => true,
    }
}

proof fn lemma_decode_within(v: JsonView, path: Seq<SegView>, depth: nat, limits: DecodeLimits)
    ensures
        decode_spec(v, path, depth, limits) matches Ok(d) ==> within_limits(d, depth, limits),
    decreases v, 0nat,
{
    if depth <= limits.max_depth {
        match v {
            JsonView::Array(items) => lemma_decode_items_within(items, path, depth + 1, limits, items.len()),
            JsonView::Object(es) => lemma_decode_entries_within(es, path, depth + 1, limits, es.len()),
            _ => {},
        }
    }
}

proof fn lemma_decode_items_within(items: Seq<JsonView>, path: Seq<SegView>, depth: nat, limits: DecodeLimits, n: nat)
    requires
        n <= items.len(),
    ensures
        decode_items(items, path, depth, limits, n) matches Ok(ds) ==> ds.len() == n && forall|k: int|
            0 <= k < n ==> within_limits(#[trigger] ds[k], depth, limits),
    decreases items, n,
{
    if n > 0 {
        assert(decreases_to!(items => items[n - 1]));
        lemma_decode_items_within(items, path, depth, limits, (n - 1) as nat);
        lemma_decode_within(items[n - 1], path.push(SegView::Index((n - 1) as usize)), depth, limits);
        if let Ok(ds) = decode_items(items, path, depth, limits, n) {
            let prev = decode_items(items, path, depth, limits, (n - 1) as nat)->Ok_0;
            assert(ds == prev.push(ds[n - 1]));
            assert forall|k: int| 0 <= k < n implies within_limits(#[trigger] ds[k], depth, limits) by {
                if k < n - 1 {
                    assert(ds[k] == prev[k]);
                }
            }
        }
    }
}

proof fn lemma_decode_entries_within(
    es: Seq<(Seq<char>, JsonView)>,
    path: Seq<SegView>,
    depth: nat,
    limits: DecodeLimits,
    n: nat,
)
    requires
        n <= es.len(),
    ensures
        decode_entries(es, path, depth, limits, n) matches Ok(ds) ==> ds.len() == n && forall|k: int|
            0 <= k < n ==> within_limits(#[trigger] ds[k].1, depth, limits),
    decreases es, n,
{
    if n > 0 {
        assert(decreases_to!(es => es[n - 1]));
        assert(decreases_to!(es[n - 1] => es[n - 1].1));
        lemma_decode_entries_within(es, path, depth, limits, (n - 1) as nat);
        lemma_decode_within(es[n - 1].1, path.push(SegView::Field(es[n - 1].0)), depth, limits);
        if let Ok(ds) = decode_entries(es, path, depth, limits, n) {
            let prev = decode_entries(es, path, depth, limits, (n - 1) as nat)->Ok_0;
            assert(ds == prev.push(ds[n - 1]));
            assert forall|k: int| 0 <= k < n implies within_limits(#[trigger] ds[k].1, depth, limits) by {
                if k < n - 1 {
                    assert(ds[k] == prev[k]);
                }
            }
        }
    }
}

/// Law: whatever decoding gives back is within the limits it decoded
/// under: no deeper than `max_depth`, no string longer than
/// `max_string_len`, no list or map longer than `max_collection_len`.
pub proof fn law_decoded_within_limits(v: JsonView, limits: DecodeLimits)
    ensures
        decode_spec(v, Seq::empty(), 0, limits) matches Ok(d) ==> within_limits(d, 0, limits),
{
    lemma_decode_within(v, Seq::empty(), 0, limits);
}

/// The first NaN or infinite double of `d` met depth first, left to
/// right, with its path (below `path`) and kind, if there is one.
pub open spec fn first_non_finite(d: DocView, path: Seq<SegView>) -> Option<(Seq<SegView>, Seq<char>)>
    decreases d, 0nat,
{
    match d {
        DocView::Float(f) => if f64_is_nan(f) {
            Some((path, "NaN"@))
        } else if f64_is_infinite(f) {
            Some((path, "infinite"@))
        } else {
            None
        },
        DocView::List(items) => first_non_finite_items(items, path, items.len()),
        DocView::Mapping(es) => first_non_finite_entries(es, path, es.len()),
        _ => None,
    }
}

/// The first NaN or infinite double among the first `n` items.
pub open spec fn first_non_finite_items(items: Seq<DocView>, path: Seq<SegView>, n: nat) -> Option<
    (Seq<SegView>, Seq<char>),
>
    decreases items, n,
{
    if n == 0 || n > items.len() {
        None
    } else {
        proof {
            assert(decreases_to!(items => items[n - 1]));
        }
        match first_non_finite_items(items, path, (n - 1) as nat) {
            Some(x) => Some(x),
            None => first_non_finite(items[n - 1], path.push(SegView::Index((n - 1) as usize))),
        }
    }
}

/// The first NaN or infinite double among the values of the first `n`
/// entries.
pub open spec fn first_non_finite_entries(es: Seq<(Seq<char>, DocView)>, path: Seq<SegView>, n: nat) -> Option<
    (Seq<SegView>, Seq<char>),
>
    decreases es, n,
{
    if n == 0 || n > es.len() {
        None
    } else {
        proof {
            assert(decreases_to!(es => es[n - 1]));
            assert(decreases_to!(es[n - 1] => es[n - 1].1));
        }
        match first_non_finite_entries(es, path, (n - 1) as nat) {
            Some(x) => Some(x),
            None => first_non_finite(es[n - 1].1, path.push(SegView::Field(es[n - 1].0))),
        }
    }
}

proof fn lemma_encode_err_first(d: DocView, path: Seq<SegView>)
    ensures
        encode_spec(d, path) is Err <==> first_non_finite(d, path) is Some,
        encode_spec(d, path) matches Err(e) ==> first_non_finite(d, path) == Some(e),
    decreases d, 0nat,
{
    match d {
        DocView::List(items) => lemma_encode_items_err_first(items, path, items.len()),
        DocView::Mapping(es) => lemma_encode_entries_err_first(es, path, es.len()),
        _ => {},
    }
}

proof fn lemma_encode_items_err_first(items: Seq<DocView>, path: Seq<SegView>, n: nat)
    ensures
        encode_items(items, path, n) is Err <==> first_non_finite_items(items, path, n) is Some,
        encode_items(items, path, n) matches Err(e) ==> first_non_finite_items(items, path, n) == Some(e),
    decreases items, n,
{
    if n > 0 && n <= items.len() {
        assert(decreases_to!(items => items[n - 1]));
        lemma_encode_items_err_first(items, path, (n - 1) as nat);
        lemma_encode_err_first(items[n - 1], path.push(SegView::Index((n - 1) as usize)));
    }
}

proof fn lemma_encode_entries_err_first(es: Seq<(Seq<char>, DocView)>, path: Seq<SegView>, n: nat)
    ensures
        encode_entries(es, path, n) is Err <==> first_non_finite_entries(es, path, n) is Some,
        encode_entries(es, path, n) matches Err(e) ==> first_non_finite_entries(es, path, n) == Some(e),
    decreases es, n,
{
    if n > 0 && n <= es.len() {
        assert(decreases_to!(es => es[n - 1]));
        assert(decreases_to!(es[n - 1] => es[n - 1].1));
        lemma_encode_entries_err_first(es, path, (n - 1) as nat);
        lemma_encode_err_first(es[n - 1].1, path.push(SegView::Field(es[n - 1].0)));
    }
}

/// Law: when encoding refuses a document, the error names the first NaN
/// or infinite double met depth first, left to right: its path from the
/// root and its kind (`NaN` or `infinite`).
pub proof fn law_encode_error_is_first_non_finite(d: DocView)
    ensures
        encode_spec(d, Seq::empty()) is Err <==> first_non_finite(d, Seq::empty()) is Some,
        encode_spec(d, Seq::empty()) matches Err(e) ==> first_non_finite(d, Seq::empty()) == Some(e),
{
    lemma_encode_err_first(d, Seq::empty());
}

} // verus!
