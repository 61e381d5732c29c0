//! JSON text against the JSON tree. Parsing and printing are the work of
//! serde_json; the library trusts two facts about them: parsing is a
//! function of the bytes alone, and printing is a function of the tree
//! alone. Everything the tool decides happens on the tree, in verified
//! code.

use vstd::prelude::*;

use crate::json::{Json, JVal, jwf};

verus! {

/// Declares `serde_json::Value` so that the conversion helpers below can
/// name it; the library never looks inside such a value.
#[verifier::external_type_specification]
#[verifier::external_body]
pub struct ExValue(serde_json::Value);

/// What parsing a byte string yields: the tree of the document it holds,
/// or nothing when it is not valid JSON. Parsing depends on the bytes
/// alone.
pub uninterp spec fn parsed_json(bytes: Seq<u8>) -> Option<JVal>;

/// What printing a tree yields: its pretty-printed text. Printing depends
/// on the tree alone.
pub uninterp spec fn pretty_text(v: JVal) -> Seq<char>;

/// Converts a parsed serde_json tree into the library's own, variant by
/// variant; object entries keep their order and numbers move through
/// untouched. Only `parse_json` calls this; that wrapper carries the
/// contract.
#[verifier::external_body]
fn from_value(v: serde_json::Value) -> Json {
    match v {
        serde_json::Value::Null => Json::Null,
        serde_json::Value::Bool(b) => Json::Bool(b),
        serde_json::Value::Number(n) => Json::Num(n),
        serde_json::Value::String(s) => Json::Str(s),
        serde_json::Value::Array(a) => Json::Arr(a.into_iter().map(from_value).collect()),
        serde_json::Value::Object(m) => Json::Obj(
            m.into_iter().map(|e: (String, serde_json::Value)| (e.0, from_value(e.1))).collect(),
        ),
    }
}

/// Converts the library's tree back into a serde_json tree, variant by
/// variant. Only `to_pretty` calls this; that wrapper carries the
/// contract.
#[verifier::external_body]
fn to_value(j: Json) -> serde_json::Value {
    match j {
        Json::Null => serde_json::Value::Null,
        Json::Bool(b) => serde_json::Value::Bool(b),
        Json::Num(n) => serde_json::Value::Number(n),
        Json::Str(s) => serde_json::Value::String(s),
        Json::Arr(a) => serde_json::Value::Array(a.into_iter().map(to_value).collect()),
        Json::Obj(e) => serde_json::Value::Object(
            e.into_iter().map(|p: (String, Json)| (p.0, to_value(p.1))).collect(),
        ),
    }
}

/// Relies on serde_json::from_slice: it parses the bytes as one JSON
/// document, deterministically, and its maps hold each key once, so the
/// tree is well formed.
#[verifier::external_body]
pub fn parse_json(bytes: &[u8]) -> (r: Option<Json>)
    ensures
        (match r {
            Some(j) => parsed_json(bytes@) == Some(j@) && jwf(j@),
            None => parsed_json(bytes@) is None,
        }),
{
    match serde_json::from_slice::<serde_json::Value>(bytes) {
        Ok(v) => Some(from_value(v)),
        Err(_) => None,
    }
}

/// Relies on serde_json::to_string_pretty: it prints the tree as JSON
/// text, deterministically, and cannot fail on a plain JSON value.
#[verifier::external_body]
pub fn to_pretty(j: Json) -> (r: String)
    ensures
        r@ == pretty_text(j@),
{
    match serde_json::to_string_pretty(&to_value(j)) {
        Ok(s) => s,
        Err(_) => String::new(),
    }
}

} // verus!
