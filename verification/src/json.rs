//! Reading JSON documents through `serde_json`.
//!
//! A parsed document is an opaque `serde_json::Value`; `json_model` names
//! the tree it holds, and each accessor below states what it returns in
//! terms of that tree.
use vstd::prelude::*;

verus! {

#[verifier::external_type_specification]
#[verifier::external_body]
pub struct ExJsonValue(serde_json::Value);

/// A JSON value as plain data. Numbers are either integers (what
/// `serde_json` keeps as `u64` or `i64`) or non-integers; objects list
/// their entries in the order the map iterates them, keys being distinct.
pub enum Json {
    Null,
    Bool(bool),
    Int(i128),
    NonInt,
    Str(Seq<char>),
    Array(Seq<Json>),
    Object(Seq<(Seq<char>, Json)>),
}

/// The tree held by a `serde_json::Value`.
pub uninterp spec fn json_model(v: serde_json::Value) -> Json;

/// What `serde_json::from_str::<Value>` makes of a text: the tree when the
/// text is one JSON document, else the message of its refusal (the
/// error's `Display` text, which names what went wrong and where).
pub uninterp spec fn parse_json_text(s: Seq<char>) -> Result<Json, Seq<char>>;

/// What `serde_json::from_slice::<Value>` makes of bytes: the tree, or the
/// message of its refusal.
pub uninterp spec fn parse_json_bytes(b: Seq<u8>) -> Result<Json, Seq<char>>;

/// The value stored under `key` among object entries.
pub open spec fn entry_value(es: Seq<(Seq<char>, Json)>, key: Seq<char>) -> Option<Json>
    decreases es.len(),
{
    if es.len() == 0 {
        None
    } else if es[0].0 == key {
        Some(es[0].1)
    } else {
        entry_value(es.drop_first(), key)
    }
}

/// `value.get(key)`: the entry under `key` when `value` is an object.
pub open spec fn member(j: Json, key: Seq<char>) -> Option<Json> {
    match j {
        Json::Object(es) => entry_value(es, key),
        _ => None,
    }
}

/// `as_i64`: an integer that fits in `i64`.
pub open spec fn as_i64(j: Json) -> Option<i64> {
    match j {
        Json::Int(n) => if i64::MIN <= n <= i64::MAX {
            Some(n as i64)
        } else {
            None
        },
        _ => None,
    }
}

/// `as_str`: the text of a string.
pub open spec fn as_str(j: Json) -> Option<Seq<char>> {
    match j {
        Json::Str(s) => Some(s),
        _ => None,
    }
}

/// `as_array`: the items of an array.
pub open spec fn as_array(j: Json) -> Option<Seq<Json>> {
    match j {
        Json::Array(xs) => Some(xs),
        _ => None,
    }
}

/// `value.get(key).and_then(as_i64)`.
pub open spec fn member_i64(j: Json, key: Seq<char>) -> Option<i64> {
    match member(j, key) {
        Some(v) => as_i64(v),
        None => None,
    }
}

/// `value.get(key).and_then(as_str)`.
pub open spec fn member_str(j: Json, key: Seq<char>) -> Option<Seq<char>> {
    match member(j, key) {
        Some(v) => as_str(v),
        None => None,
    }
}

/// `value.get(key).and_then(as_array)`.
pub open spec fn member_array(j: Json, key: Seq<char>) -> Option<Seq<Json>> {
    match member(j, key) {
        Some(v) => as_array(v),
        None => None,
    }
}

/// `serde_json::from_str::<serde_json::Value>`: parses a JSON text; the
/// tree it gives, or the message (`Display` text) of its refusal, is named
/// by `parse_json_text`.
#[verifier::external_body]
pub(crate) fn json_from_str(s: &str) -> (r: Result<serde_json::Value, String>)
    ensures
        match r {
            Ok(v) => parse_json_text(s@) == Ok::<Json, Seq<char>>(json_model(v)),
            Err(m) => parse_json_text(s@) == Err::<Json, Seq<char>>(m@),
        },
{
    serde_json::from_str::<serde_json::Value>(s).map_err(|e| e.to_string())
}

/// `serde_json::from_slice::<serde_json::Value>`: parses JSON bytes; the
/// tree it gives, or the message of its refusal, is named by
/// `parse_json_bytes`.
#[verifier::external_body]
pub(crate) fn json_from_bytes(b: &[u8]) -> (r: Result<serde_json::Value, String>)
    ensures
        match r {
            Ok(v) => parse_json_bytes(b@) == Ok::<Json, Seq<char>>(json_model(v)),
            Err(m) => parse_json_bytes(b@) == Err::<Json, Seq<char>>(m@),
        },
{
    serde_json::from_slice::<serde_json::Value>(b).map_err(|e| e.to_string())
}

/// `Value::get` with a string key: the entry under `key` when the value is
/// an object, `None` for other values and missing keys.
#[verifier::external_body]
pub(crate) fn json_get<'a>(v: &'a serde_json::Value, key: &str) -> (r: Option<&'a serde_json::Value>)
    ensures
        match member(json_model(*v), key@) {
            Some(j) => r matches Some(x) && json_model(*x) == j,
            None => r is None,
        },
{
    v.get(key)
}

/// `Value::as_i64`: an integer that fits in `i64`, `None` otherwise.
#[verifier::external_body]
pub(crate) fn json_as_i64(v: &serde_json::Value) -> (r: Option<i64>)
    ensures
        r == as_i64(json_model(*v)),
{
    v.as_i64()
}

/// `Value::as_str`: the text of a string value, `None` otherwise.
#[verifier::external_body]
pub(crate) fn json_as_str<'a>(v: &'a serde_json::Value) -> (r: Option<&'a str>)
    ensures
        match as_str(json_model(*v)) {
            Some(s) => r matches Some(x) && x@ == s,
            None => r is None,
        },
{
    v.as_str()
}

/// `Value::as_array`: the items of an array value, `None` otherwise.
#[verifier::external_body]
pub(crate) fn json_as_array<'a>(v: &'a serde_json::Value) -> (r: Option<&'a Vec<serde_json::Value>>)
    ensures
        match as_array(json_model(*v)) {
            Some(xs) => r matches Some(a) && a@.len() == xs.len() && forall|i: int|
                0 <= i < xs.len() ==> json_model(#[trigger] a@[i]) == xs[i],
            None => r is None,
        },
{
    v.as_array()
}

/// `Value::as_object`, with the entries of the map handed out in its
/// iteration order: the keys as strings, the values by reference.
#[verifier::external_body]
pub(crate) fn json_object_entries<'a>(v: &'a serde_json::Value) -> (r: Option<
    Vec<(String, &'a serde_json::Value)>,
>)
    ensures
        match json_model(*v) {
            Json::Object(es) => r matches Some(a) && a@.len() == es.len() && forall|i: int|
                0 <= i < es.len() ==> (#[trigger] a@[i]).0@ == es[i].0 && json_model(*a@[i].1)
                    == es[i].1,
            _ => r is None,
        },
{
    v.as_object().map(|m| m.iter().map(|(k, x)| (k.clone(), x)).collect())
}

} // verus!
