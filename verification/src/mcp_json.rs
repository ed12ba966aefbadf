//! Trusted boundary to serde_json: the opaque structured values that tool
//! schemas, arguments and results are carried in, and the two reads the
//! manager's own logic makes on a request envelope.

use vstd::prelude::*;

verus! {

#[verifier::external_type_specification]
#[verifier::external_body]
pub struct ExJsonValue(serde_json::Value);

/// The tool name held by a request envelope: the string at key "name", if the
/// envelope is an object, has that key, and the key holds a string.
pub uninterp spec fn json_tool_name(v: serde_json::Value) -> Option<Seq<char>>;

/// Whether a request envelope holds a JSON object at key "arguments".
pub uninterp spec fn json_has_arguments_object(v: serde_json::Value) -> bool;

/// Relies on serde_json::Value::get and Value::as_str: returns the string at
/// key "name" of the envelope, a function of the value alone.
#[verifier::external_body]
pub fn extract_tool_name(v: &serde_json::Value) -> (r: Option<String>)
    ensures
        match r {
            Some(s) => json_tool_name(*v) == Some(s@),
            None => json_tool_name(*v) is None,
        },
{
    match v.get("name") {
        Some(x) => match x.as_str() {
            Some(s) => Some(s.to_string()),
            None => None,
        },
        None => None,
    }
}

/// Relies on serde_json::Value::get and Value::as_object: returns the object
/// at key "arguments" of the envelope, if any, as a JSON value of its own.
#[verifier::external_body]
pub fn extract_arguments(v: &serde_json::Value) -> (r: Option<serde_json::Value>)
    ensures
        r is Some <==> json_has_arguments_object(*v),
{
    match v.get("arguments") {
        Some(a) => match a.as_object() {
            Some(m) => Some(serde_json::Value::Object(m.clone())),
            None => None,
        },
        None => None,
    }
}

/// Relies on serde_json::Value's Clone, which duplicates the value.
#[verifier::external_body]
pub fn clone_json(v: &serde_json::Value) -> (r: serde_json::Value)
    ensures
        r == *v,
{
    v.clone()
}

} // verus!
