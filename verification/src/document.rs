//! Reading a JSON document from text, by `serde_json`.
//!
//! The text is read by `serde_json::from_str` into a value of that crate,
//! and that value is turned into a [`JsonValue`]. Neither step is proved
//! here; the contracts below state what is taken on trust of them.
use crate::json::{Json, JsonValue, Number, Object};
use vstd::prelude::*;

verus! {

/// The JSON value of `serde_json`. The verifier sees nothing inside it: it
/// is handed from [`read_serde`] to [`value_from_serde`] and no further.
#[verifier::external_type_specification]
#[verifier::external_body]
pub struct ExSerdeValue(serde_json::Value);

/// What `serde_json::from_str` makes of a text: the value of the JSON document
/// that the text is, or the message of the error that it reports.
pub uninterp spec fn json_document(text: Seq<char>) -> Result<Json, Seq<char>>;

/// What a value of `serde_json` holds, as [`value_from_serde`] hands it on.
pub uninterp spec fn serde_model(v: serde_json::Value) -> Json;

/// What the outcome of `serde_json::from_str` stands for.
pub open spec fn serde_outcome(r: Result<serde_json::Value, String>) -> Result<Json, Seq<char>> {
    match r {
        Ok(v) => Ok(serde_model(v)),
        Err(message) => Err(message@),
    }
}

/// What the outcome of reading a document stands for.
pub open spec fn outcome_view(r: Result<JsonValue, String>) -> Result<Json, Seq<char>> {
    match r {
        Ok(v) => Ok(v@),
        Err(message) => Err(message@),
    }
}

/// Calls `serde_json::from_str` for a `serde_json::Value`; an error is
/// handed back as the text that its `Display` gives. The contract only
/// gives the outcome its name: the same text always has the same outcome.
#[verifier::external_body]
fn read_serde(text: &str) -> (r: Result<serde_json::Value, String>)
    ensures
        serde_outcome(r) == json_document(text@),
{
    serde_json::from_str::<serde_json::Value>(text).map_err(|e| e.to_string())
}

/// Turns a value of `serde_json` into a [`JsonValue`], variant by variant:
/// the members of an object in the order in which `serde_json` hands them
/// out, a number by `as_u64`, else by `as_i64`, else by the text that its
/// `Display` gives. The contract gives the result its name, and claims that
/// no object in it has two entries under one key: `serde_json` holds the
/// members of an object in a map, and `Object::from_pairs` keeps one entry
/// for each key.
#[verifier::external_body]
fn value_from_serde(v: serde_json::Value) -> (r: JsonValue)
    ensures
        r@ == serde_model(v),
        r@.well_formed(),
{
    match v {
        serde_json::Value::Null => JsonValue::Null,
        serde_json::Value::Bool(b) => JsonValue::Bool(b),
        serde_json::Value::Number(n) => JsonValue::Number(
            Number::from_parts(n.as_u64(), n.as_i64(), n.to_string()),
        ),
        serde_json::Value::String(s) => JsonValue::String(s),
        serde_json::Value::Array(a) => JsonValue::Array(
            a.into_iter().map(value_from_serde).collect(),
        ),
        serde_json::Value::Object(m) => JsonValue::Object(
            Object::from_pairs(m.into_iter().map(|(k, x)| (k, value_from_serde(x))).collect()),
        ),
    }
}

/// Reads `text` as one JSON document: its value, or the message of the
/// error where the text is none.
pub fn parse_document(text: &str) -> (r: Result<JsonValue, String>)
    ensures
        outcome_view(r) == json_document(text@),
        r matches Ok(v) ==> v@.well_formed(),
{
    match read_serde(text) {
        Ok(v) => Ok(value_from_serde(v)),
        Err(message) => Err(message),
    }
}

} // verus!
