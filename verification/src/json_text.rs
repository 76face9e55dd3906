//! JSON text: documents read from and written to text by serde_json.

use vstd::prelude::*;
use crate::json::{Json, JsonV};

verus! {

#[verifier::external_type_specification]
#[verifier::external_body]
pub struct ExSerdeValue(serde_json::Value);

/// The document serde_json reads from `text`, or none when the text is
/// not JSON.
pub uninterp spec fn json_parse(text: Seq<char>) -> Option<JsonV>;

/// The compact text serde_json writes for a document.
pub uninterp spec fn json_serialize(v: JsonV) -> Seq<char>;

/// The indented text serde_json's pretty printer writes for a document.
pub uninterp spec fn json_serialize_pretty(v: JsonV) -> Seq<char>;

/// The conversion of `parse_json`'s result: each serde_json value becomes
/// the variant of the same kind, a number keeping the text serde_json
/// prints for it and an object its keys in order.
#[verifier::external_body]
fn json_of_value(v: &serde_json::Value) -> Json {
    match v {
        serde_json::Value::Null => Json::Null,
        serde_json::Value::Bool(b) => Json::Bool(*b),
        serde_json::Value::Number(n) => Json::Num(n.to_string()),
        serde_json::Value::String(s) => Json::Str(s.clone()),
        serde_json::Value::Array(a) => Json::Arr(a.iter().map(json_of_value).collect()),
        serde_json::Value::Object(o) => Json::Obj(o.iter().map(|(k, v)| (k.clone(), json_of_value(v))).collect()),
    }
}

/// The conversion of `json_text`'s argument: each variant becomes the
/// serde_json value of the same kind; a number is read back from its
/// text (`null` when the text is no number).
#[verifier::external_body]
fn value_of_json(j: &Json) -> serde_json::Value {
    match j {
        Json::Null => serde_json::Value::Null,
        Json::Bool(b) => serde_json::Value::Bool(*b),
        Json::Num(t) => serde_json::from_str::<serde_json::Number>(t).map_or(serde_json::Value::Null, serde_json::Value::Number),
        Json::Str(s) => serde_json::Value::String(s.clone()),
        Json::Arr(a) => serde_json::Value::Array(a.iter().map(value_of_json).collect()),
        Json::Obj(es) => serde_json::Value::Object(es.iter().map(|(k, v)| (k.clone(), value_of_json(v))).collect()),
    }
}

/// Reads JSON text with `serde_json::from_str`. The result is named
/// `json_parse` of the text: the same text always gives the same
/// document, and text that is not JSON gives an error, whose message
/// (serde_json's) is not described.
#[verifier::external_body]
fn parse_json(text: &str) -> (r: Result<Json, String>)
    ensures
        match r {
            Ok(j) => json_parse(text@) == Some(j@),
            Err(_) => json_parse(text@) is None,
        },
{
    serde_json::from_str::<serde_json::Value>(text).map(|v| json_of_value(&v)).map_err(|e| e.to_string())
}

/// Writes a document as compact JSON text with serde_json's `to_string`.
/// The result is named `json_serialize` of the document.
#[verifier::external_body]
fn json_text(j: &Json) -> (r: String)
    ensures
        r@ == json_serialize(j@),
{
    value_of_json(j).to_string()
}

/// Writes a document as indented JSON text with
/// `serde_json::to_string_pretty`, which cannot fail on a `Value` (its
/// keys are strings). The result is named `json_serialize_pretty` of the
/// document.
#[verifier::external_body]
fn json_pretty(j: &Json) -> (r: String)
    ensures
        r@ == json_serialize_pretty(j@),
{
    serde_json::to_string_pretty(&value_of_json(j)).unwrap_or_default()
}

/// The document a JSON text holds, or serde_json's message when the text
/// is not JSON.
pub fn read_document(text: &str) -> (r: Result<Json, String>)
    ensures
        match r {
            Ok(j) => json_parse(text@) == Some(j@),
            Err(_) => json_parse(text@) is None,
        },
{
    parse_json(text)
}

/// The document a JSON text holds, when it is JSON.
pub fn parse_document(text: &str) -> (r: Option<Json>)
    ensures
        match r {
            Some(j) => json_parse(text@) == Some(j@),
            None => json_parse(text@) is None,
        },
{
    match parse_json(text) {
        Ok(j) => Some(j),
        Err(_) => None,
    }
}

/// A document as compact JSON text.
pub fn document_text(j: &Json) -> (r: String)
    ensures
        r@ == json_serialize(j@),
{
    json_text(j)
}

/// A document as indented JSON text, as configuration and cache files are
/// written.
pub fn document_pretty_text(j: &Json) -> (r: String)
    ensures
        r@ == json_serialize_pretty(j@),
{
    json_pretty(j)
}

} // verus!
