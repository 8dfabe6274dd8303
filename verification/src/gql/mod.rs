//! GraphQL data layer: value model, document parser, executor and normalized cache, and
//! the formatting of Rust values as GraphQL argument literals.
pub mod value;
pub mod store;
pub mod parser;
pub mod exec;
pub mod number;
pub mod orm;
pub mod roundtrip;

use vstd::prelude::*;
use crate::text::{chars_of, string_from};
pub use crate::gql::value::{errors_message, parse, FromValue, IntoValue, Value};
use crate::gql::value::{push_int, int_text, parse_json, parse_json_ok, json_get, Json};
use vstd::utf8::encode_utf8;

verus! {

/// `s` with `\` and `"` escaped by a backslash.
pub open spec fn gql_escape_text(s: Seq<char>) -> Seq<char>
    decreases s.len(),
{
    if s.len() == 0 {
        Seq::empty()
    } else {
        gql_escape_text(s.drop_last()) + (if s.last() == '\\' {
            seq!['\\', '\\']
        } else if s.last() == '"' {
            seq!['\\', '"']
        } else {
            seq![s.last()]
        })
    }
}

/// Escapes `\` and `"` so that `s` can stand inside a double-quoted GraphQL string.
pub fn gql_escape(s: &str) -> (r: String)
    ensures
        r@ == gql_escape_text(s@),
{
    let cs = chars_of(s);
    let mut out: Vec<char> = Vec::new();
    let mut i: usize = 0;
    while i < cs.len()
        invariant
            0 <= i <= cs@.len(),
            out@ == gql_escape_text(cs@.take(i as int)),
        decreases cs@.len() - i,
    {
        proof {
            assert(cs@.take(i + 1).drop_last() =~= cs@.take(i as int));
        }
        let c = cs[i];
        if c == '\\' {
            out.push('\\');
            out.push('\\');
        } else if c == '"' {
            out.push('\\');
            out.push('"');
        } else {
            out.push(c);
        }
        proof {
            assert(out@ =~= gql_escape_text(cs@.take(i + 1)));
        }
        i += 1;
    }
    proof {
        assert(cs@.take(cs@.len() as int) =~= cs@);
    }
    string_from(&out)
}

/// `s` as a GraphQL string literal.
pub open spec fn gql_string_literal(s: Seq<char>) -> Seq<char> {
    seq!['"'] + gql_escape_text(s) + seq!['"']
}

// ───────────── the type-level schema the generated query code is checked against ─────────────

/// A scalar field: the exact-fit field type of a selection of it is `Out`.
pub trait Scalar {
    type Out: FromValue + Clone;
}

impl Scalar for String {
    type Out = String;
}

impl Scalar for i64 {
    type Out = i64;
}

impl Scalar for bool {
    type Out = bool;
}

/// An object type: its GraphQL type name, its id (the normalized cache's key), and its
/// fields by name (the entity derive implements it).
pub trait GqlObject {
    const TYPENAME: &'static str;

    fn gql_id(&self) -> Value;

    fn gql_field(&self, name: &str) -> Option<Value>;
}

/// The object type of a field with a sub-selection: the element of a list, or the object
/// itself (the derive implements the single-object case).
pub trait GqlElem {
    type Elem: GqlObject;
}

impl<T: GqlObject> GqlElem for Vec<T> {
    type Elem = T;
}

/// The Rust type of the field named by marker `M` of an object type.
pub trait Field<M> {
    type Ty;
}

/// A field's container shape around the exact-fit type `S` of its sub-selection: a list
/// of them for a list field, `S` itself for a single object (the derive implements that).
pub trait Reshape<S> {
    type Out: FromValue;
}

impl<T, S: FromValue> Reshape<S> for Vec<T> {
    type Out = Vec<S>;
}

/// A reusable selection: its selection-set text, and how a value of it is read back.
pub trait Fragment: FromValue {
    const SELECTION: &'static str;
}

/// A Rust value written as a GraphQL argument literal: strings quoted and escaped,
/// numbers and booleans bare.
pub trait ToGqlArg {
    fn to_gql_arg(&self) -> String;
}

fn quoted_arg(s: &str) -> (r: String)
    ensures
        r@ == gql_string_literal(s@),
{
    let e = gql_escape(s);
    let mut out: Vec<char> = Vec::new();
    out.push('"');
    let cs = chars_of(e.as_str());
    let mut i: usize = 0;
    while i < cs.len()
        invariant
            0 <= i <= cs@.len(),
            out@ == seq!['"'] + cs@.take(i as int),
        decreases cs@.len() - i,
    {
        out.push(cs[i]);
        proof {
            assert(cs@.take(i + 1) =~= cs@.take(i as int).push(cs@[i as int]));
        }
        i += 1;
    }
    out.push('"');
    proof {
        assert(cs@.take(cs@.len() as int) =~= cs@);
        assert(out@ =~= gql_string_literal(s@));
    }
    string_from(&out)
}

impl ToGqlArg for str {
    fn to_gql_arg(&self) -> (r: String)
        ensures
            r@ == gql_string_literal(self@),
    {
        quoted_arg(self)
    }
}

impl ToGqlArg for String {
    fn to_gql_arg(&self) -> (r: String)
        ensures
            r@ == gql_string_literal(self@),
    {
        quoted_arg(self.as_str())
    }
}

impl ToGqlArg for i64 {
    fn to_gql_arg(&self) -> (r: String)
        ensures
            r@ == int_text(*self as int),
    {
        let mut out: Vec<char> = Vec::new();
        push_int(&mut out, *self);
        proof {
            assert(out@ =~= int_text(*self as int));
        }
        string_from(&out)
    }
}

impl ToGqlArg for bool {
    fn to_gql_arg(&self) -> (r: String)
        ensures
            r@ == (if *self { "true"@ } else { "false"@ }),
    {
        if *self {
            "true".to_owned()
        } else {
            "false".to_owned()
        }
    }
}

/// Where the rows of a response are: `data.<root>` when present, else the whole value
/// (a bare array).
pub open spec fn rows_payload(j: Json, root: Seq<char>) -> Json {
    match json_get(j, "data"@) {
        Some(d) => match json_get(d, root) {
            Some(p) => p,
            None => j,
        },
        None => j,
    }
}

/// Decodes the rows of a response text: `{"data":{root:[...]}}`, or a bare `[...]`.
pub fn decode_rows<T: FromValue>(text: &str, root: &str) -> (r: Vec<T>)
    requires
        parse_json_ok(text@),
        encode_utf8(text@).len() + 8 <= usize::MAX,
    ensures
        <Vec<T> as FromValue>::decodes(rows_payload(parse_json(text@), root@), r),
{
    let v = parse(text);
    rows_of(&v, root)
}

/// The rows of a parsed response: `data.root` when present, else the whole value.
fn rows_of<T: FromValue>(v: &Value, root: &str) -> (r: Vec<T>)
    ensures
        <Vec<T> as FromValue>::decodes(rows_payload(v@, root@), r),
{
    let payload = match v.get("data") {
        Some(d) => match d.get(root) {
            Some(p) => p,
            None => v,
        },
        None => v,
    };
    <Vec<T> as FromValue>::from_value(payload)
}

/// [`decode_rows`] on the texts it accepts (see [`parse_json_ok`]); `None` on the others.
pub fn try_decode_rows<T: FromValue>(text: &str, root: &str) -> (r: Option<Vec<T>>)
    requires
        encode_utf8(text@).len() + 8 <= usize::MAX,
    ensures
        r is Some <==> parse_json_ok(text@),
        r matches Some(rows) ==> <Vec<T> as FromValue>::decodes(rows_payload(parse_json(text@), root@), rows),
{
    match crate::gql::value::try_parse(text) {
        Some(v) => Some(rows_of(&v, root)),
        None => None,
    }
}

} // verus!
