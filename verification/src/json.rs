//! The JSON engine the log is persisted with, and what this crate takes on
//! trust about it.
//!
//! Text is read and written by `serde_json`. Nothing in this module is
//! proved: each function states what the engine's source shows of one call,
//! over the model [`Json`] of what a `serde_json::Value` holds.

use vstd::prelude::*;

verus! {

/// What a JSON value holds.
///
/// An object is the sequence of its members in the order the engine keeps
/// them, which is the order of insertion: this crate builds `serde_json` with
/// its `preserve_order` feature. No two members of an object share a key.
pub enum Json {
    Null,
    Bool(bool),
    /// A number that the engine holds as an integer of zero or more.
    Unsigned(u64),
    /// A number that the engine holds as an integer below zero.
    Negative(i64),
    /// Any other number, by the bits of the 64-bit float that holds it.
    Fraction(u64),
    Text(Seq<char>),
    Array(Seq<Json>),
    Object(Seq<(Seq<char>, Json)>),
}

#[verifier::external_type_specification]
#[verifier::external_body]
pub struct ExValue(serde_json::Value);

#[verifier::external_type_specification]
#[verifier::external_body]
pub struct ExError(serde_json::Error);

/// What the value `v` holds.
pub uninterp spec fn json_of(v: serde_json::Value) -> Json;

/// What `serde_json::from_str` makes of `text` when asked for a
/// `serde_json::Value`: the value's content, or `None` where it reports an
/// error.
pub uninterp spec fn parsed(text: Seq<char>) -> Option<Json>;

/// The text that `serde_json::to_string_pretty` writes for a value that holds
/// `doc`, or `None` where it reports an error.
pub uninterp spec fn printed(doc: Json) -> Option<Seq<char>>;

/// What each value of `items` holds, in the same order.
pub open spec fn jsons_of(items: Seq<serde_json::Value>) -> Seq<Json> {
    items.map_values(|v: serde_json::Value| json_of(v))
}

/// The members that `fields` describes: each key with what its value holds.
pub open spec fn members_of(fields: Seq<(String, serde_json::Value)>) -> Seq<(Seq<char>, Json)> {
    fields.map_values(|f: (String, serde_json::Value)| (f.0@, json_of(f.1)))
}

/// The value of the first member of `members` whose key is `key`.
pub open spec fn member(members: Seq<(Seq<char>, Json)>, key: Seq<char>) -> Option<Json>
    decreases members.len(),
{
    if members.len() == 0 {
        None
    } else if members[0].0 == key {
        Some(members[0].1)
    } else {
        member(members.skip(1), key)
    }
}

/// No two of `fields` have the same key.
pub open spec fn distinct_keys(fields: Seq<(String, serde_json::Value)>) -> bool {
    forall|i: int, j: int| 0 <= i < j < fields.len() ==> fields[i].0@ != fields[j].0@
}

/// `serde_json::from_str`, asked for a `serde_json::Value`. It succeeds
/// exactly when `parsed` has a content for the text, and the value then holds
/// that content.
#[verifier::external_body]
pub(crate) fn parse(text: &str) -> (r: Result<serde_json::Value, serde_json::Error>)
    ensures
        match r {
            Ok(v) => parsed(text@) == Some(json_of(v)),
            Err(_) => parsed(text@) is None,
        },
{
    serde_json::from_str::<serde_json::Value>(text)
}

/// `serde_json::to_string_pretty` on a value. It succeeds exactly when
/// `printed` has a text for what the value holds, and returns that text.
#[verifier::external_body]
pub(crate) fn print(v: &serde_json::Value) -> (r: Result<String, serde_json::Error>)
    ensures
        match r {
            Ok(text) => printed(json_of(*v)) == Some(text@),
            Err(_) => printed(json_of(*v)) is None,
        },
{
    serde_json::to_string_pretty(v)
}

/// `serde_json::Value::as_array`: the elements of an array, and `None` for
/// any other value.
#[verifier::external_body]
pub(crate) fn elements(v: &serde_json::Value) -> (r: Option<&Vec<serde_json::Value>>)
    ensures
        match r {
            Some(items) => json_of(*v) == Json::Array(jsons_of(items@)),
            None => !(json_of(*v) is Array),
        },
{
    v.as_array()
}

/// `serde_json::Value::get` with a string index: the value of the member of
/// an object that has the key `key`; `None` when the value is no object or
/// has no such member.
#[verifier::external_body]
pub(crate) fn field<'a>(v: &'a serde_json::Value, key: &str) -> (r: Option<&'a serde_json::Value>)
    ensures
        match r {
            Some(found) => json_of(*v) is Object && member(json_of(*v)->Object_0, key@) == Some(
                json_of(*found),
            ),
            None => !(json_of(*v) is Object) || member(json_of(*v)->Object_0, key@) is None,
        },
{
    v.get(key)
}

/// `serde_json::Value::as_u64`: the integer of a number held as an integer of
/// zero or more, and `None` for any other value.
#[verifier::external_body]
pub(crate) fn unsigned(v: &serde_json::Value) -> (r: Option<u64>)
    ensures
        match r {
            Some(n) => json_of(*v) == Json::Unsigned(n),
            None => !(json_of(*v) is Unsigned),
        },
{
    v.as_u64()
}

/// `serde_json::Value::as_str`: the characters of a string, and `None` for
/// any other value.
#[verifier::external_body]
pub(crate) fn text<'a>(v: &'a serde_json::Value) -> (r: Option<&'a str>)
    ensures
        match r {
            Some(s) => json_of(*v) == Json::Text(s@),
            None => !(json_of(*v) is Text),
        },
{
    v.as_str()
}

/// `serde_json::Value::from` on a `u64`: a number held as that integer.
#[verifier::external_body]
pub(crate) fn number(n: u64) -> (r: serde_json::Value)
    ensures
        json_of(r) == Json::Unsigned(n),
{
    serde_json::Value::from(n)
}

/// `serde_json::Value::from` on a `String`: a string of the same characters.
#[verifier::external_body]
pub(crate) fn string(s: String) -> (r: serde_json::Value)
    ensures
        json_of(r) == Json::Text(s@),
{
    serde_json::Value::from(s)
}

/// The variant `serde_json::Value::Array`: an array of the given elements, in
/// the given order.
#[verifier::external_body]
pub(crate) fn array(items: Vec<serde_json::Value>) -> (r: serde_json::Value)
    ensures
        json_of(r) == Json::Array(jsons_of(items@)),
{
    serde_json::Value::Array(items)
}

/// `serde_json::Value::from_iter` on pairs of a key and a value: an object
/// with one member for each pair, in the given order. Stated for pairs with
/// distinct keys only.
#[verifier::external_body]
pub(crate) fn object(fields: Vec<(String, serde_json::Value)>) -> (r: serde_json::Value)
    requires
        distinct_keys(fields@),
    ensures
        json_of(r) == Json::Object(members_of(fields@)),
{
    serde_json::Value::from_iter(fields)
}

} // verus!
