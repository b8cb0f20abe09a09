//! JSON documents as the probe logic reads them, parsed by `serde_json`.
use vstd::prelude::*;

use crate::text::{chars_equal, chars_of};

verus! {

/// A JSON value.  Object members keep the order in which `serde_json`'s map
/// yields them; numbers keep their text.
#[derive(Debug, PartialEq, Eq)]
pub enum JsonValue {
    Null,
    Bool(bool),
    Number(String),
    String(String),
    Array(Vec<JsonValue>),
    Object(Vec<(String, JsonValue)>),
}

#[verifier::external_type_specification]
#[verifier::external_body]
pub struct ExSerdeJsonValue(serde_json::Value);

/// The value that `serde_json` parses from a text, or `None` when the text
/// is not JSON.
pub uninterp spec fn spec_parse_json(text: Seq<char>) -> Option<JsonValue>;

/// `serde_json::from_str::<serde_json::Value>`: the parsed value, or `None`
/// on a syntax error.  The contract claims only that the result is a
/// function of the text; what that function is, is `serde_json`'s.
#[verifier::external_body]
pub(crate) fn parse_json(text: &str) -> (r: Option<JsonValue>)
    ensures
        r == spec_parse_json(text@),
{
    serde_json::from_str::<serde_json::Value>(text).ok().map(json_from_serde)
}

/// Moves a `serde_json::Value` into a `JsonValue`, variant for variant.
#[verifier::external_body]
fn json_from_serde(v: serde_json::Value) -> JsonValue {
    match v {
        serde_json::Value::Null => JsonValue::Null,
        serde_json::Value::Bool(b) => JsonValue::Bool(b),
        serde_json::Value::Number(n) => JsonValue::Number(n.to_string()),
        serde_json::Value::String(s) => JsonValue::String(s),
        serde_json::Value::Array(a) => JsonValue::Array(a.into_iter().map(json_from_serde).collect()),
        serde_json::Value::Object(m) => JsonValue::Object(m.into_iter().map(|(k, x)| (k, json_from_serde(x))).collect()),
    }
}

/// The value of the first member named `key`.
pub open spec fn members_get(members: Seq<(String, JsonValue)>, key: Seq<char>) -> Option<JsonValue>
    decreases members.len(),
{
    if members.len() == 0 {
        None
    } else if members[0].0@ == key {
        Some(members[0].1)
    } else {
        members_get(members.subrange(1, members.len() as int), key)
    }
}

/// `Value::get` with a key: the member of an object, `None` otherwise.
pub open spec fn json_get(v: JsonValue, key: Seq<char>) -> Option<JsonValue> {
    match v {
        JsonValue::Object(members) => members_get(members@, key),
        _ => None,
    }
}

/// `Value::get(key)`.
pub fn get<'a>(v: &'a JsonValue, key: &str) -> (r: Option<&'a JsonValue>)
    ensures
        match r {
            Some(x) => json_get(*v, key@) == Some(*x),
            None => json_get(*v, key@) is None,
        },
{
    match v {
        JsonValue::Object(members) => {
            let k = chars_of(key);
            let n = members.len();
            assert(members@.subrange(0, n as int) =~= members@);
            for i in 0..n
                invariant
                    n == members@.len(),
                    k@ == key@,
                    json_get(*v, key@) == members_get(members@, key@),
                    members_get(members@, key@) == members_get(members@.subrange(i as int, n as int), key@),
            {
                let ghost rest = members@.subrange(i as int, n as int);
                assert(rest[0] == members@[i as int]);
                assert(rest.subrange(1, rest.len() as int) =~= members@.subrange(i + 1, n as int));
                let name = chars_of(members[i].0.as_str());
                if chars_equal(name.as_slice(), k.as_slice()) {
                    assert(rest[0].0@ == key@);
                    assert(members_get(rest, key@) == Some(rest[0].1));
                    let r = &members[i].1;
                    assert(*r == members@[i as int].1);
                    return Some(r);
                }
            }
            assert(members@.subrange(n as int, n as int).len() == 0);
            None
        },
        _ => None,
    }
}

} // verus!
