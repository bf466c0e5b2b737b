//! JSON values, as far as the gateway looks into them.

use serde_json::Value;
use vstd::prelude::*;

verus! {

broadcast use vstd::seq::group_seq_axioms;

/// What a JSON value holds.
pub enum Json {
    Text(Seq<char>),
    List(Seq<Json>),
    Members(Map<Seq<char>, Json>),
    /// A number, as it is written.
    Number(Seq<char>),
    Bool(bool),
    Null,
}

/// A JSON value.
#[verifier::external_type_specification]
#[verifier::external_body]
pub struct ExValue(Value);

/// Why a text is no JSON.
#[verifier::external_type_specification]
#[verifier::external_body]
pub struct ExJsonError(serde_json::Error);

/// What a JSON value holds.
pub uninterp spec fn json_of(value: Value) -> Json;

/// What the JSON value that a text writes holds; absent where `serde_json`
/// takes no value from the text, be it no JSON, nested too deep, or with a
/// number that is out of range.
pub uninterp spec fn json_in(text: Seq<char>) -> Option<Json>;

/// `serde_json::from_str` reads a JSON value from a text.
#[verifier::external_body]
pub(crate) fn parse_json(text: &str) -> (r: Result<Value, serde_json::Error>)
    ensures
        match r {
            Ok(value) => json_in(text@) == Some(json_of(value)),
            Err(_) => json_in(text@) is None,
        },
{
    serde_json::from_str(text)
}

/// `Value::get` with a text gives the member of that name; it gives none where
/// the value has no such member or no members at all.
#[verifier::external_body]
pub(crate) fn member<'a>(value: &'a Value, name: &str) -> (r: Option<&'a Value>)
    ensures
        match json_of(*value) {
            Json::Members(m) => match r {
                Some(v) => m.contains_key(name@) && m[name@] == json_of(*v),
                None => !m.contains_key(name@),
            },
            _ => r is None,
        },
{
    value.get(name)
}

/// `Value::as_array` gives the elements of a list, and none for another value.
#[verifier::external_body]
pub(crate) fn elements(value: &Value) -> (r: Option<&Vec<Value>>)
    ensures
        match json_of(*value) {
            Json::List(l) => r is Some && r->0@.map_values(|v: Value| json_of(v)) == l,
            _ => r is None,
        },
{
    value.as_array()
}

/// `Value::as_str` gives the content of a text, and none for another value.
#[verifier::external_body]
pub(crate) fn content(value: &Value) -> (r: Option<&str>)
    ensures
        match json_of(*value) {
            Json::Text(t) => r is Some && r->0@ == t,
            _ => r is None,
        },
{
    value.as_str()
}

} // verus!
