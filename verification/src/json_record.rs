//! JSON objects of numbers, texts and byte lists.

use vstd::prelude::*;

verus! {

/// A JSON object or map of the `serde_json` crate.
#[verifier::external_type_specification]
#[verifier::external_body]
#[verifier::reject_recursive_types(K)]
#[verifier::reject_recursive_types(V)]
pub struct ExJsonMap<K, V>(serde_json::Map<K, V>);

/// A JSON value of the `serde_json` crate.
#[verifier::external_type_specification]
#[verifier::external_body]
pub struct ExJsonValue(serde_json::Value);

/// An error of the `serde_json` crate.
#[verifier::external_type_specification]
#[verifier::external_body]
pub struct ExJsonError(serde_json::Error);

/// A member of a JSON object.
pub enum JsonValue {
    /// A number.
    Number(u64),
    /// A string.
    Text(Seq<char>),
    /// An array of the numbers that the bytes are.
    Bytes(Seq<u8>),
}

/// The members of an empty object.
pub open spec fn no_members() -> Map<Seq<char>, JsonValue> {
    Map::empty()
}

/// The members of a JSON object of the `serde_json` crate; `None` if it holds
/// anything but non-negative integers, strings and arrays of bytes.
pub uninterp spec fn json_members(
    object: serde_json::Map<String, serde_json::Value>,
) -> Option<Map<Seq<char>, JsonValue>>;

/// The pretty-printed JSON text of an object with these members.
pub uninterp spec fn pretty_json(members: Map<Seq<char>, JsonValue>) -> Seq<u8>;

/// The members of the object that `serde_json::from_slice` reads in a JSON text;
/// `None` if there is no such object.
pub uninterp spec fn json_object_in(text: Seq<u8>) -> Option<Map<Seq<char>, JsonValue>>;

/// The members with one more, in place of one of the same name.
pub open spec fn with_member(
    members: Option<Map<Seq<char>, JsonValue>>,
    name: Seq<char>,
    value: JsonValue,
) -> Option<Map<Seq<char>, JsonValue>> {
    match members {
        Some(members) => Some(members.insert(name, value)),
        None => None,
    }
}

/// `serde_json::Map::new`: an object without members.
#[verifier::external_body]
pub(crate) fn new_object() -> (object: serde_json::Map<String, serde_json::Value>)
    ensures
        json_members(object) == Some(no_members()),
{
    serde_json::Map::new()
}

/// `serde_json::Map::insert` with the number as its value: an object of plain
/// members gets that member, in place of one of the same name.
#[verifier::external_body]
pub(crate) fn insert_number(
    object: &mut serde_json::Map<String, serde_json::Value>,
    name: &str,
    number: u64,
)
    requires
        json_members(*old(object)) is Some,
    ensures
        json_members(*final(object)) == with_member(
            json_members(*old(object)),
            name@,
            JsonValue::Number(number),
        ),
{
    object.insert(name.to_owned(), serde_json::Value::from(number));
}

/// `serde_json::Map::insert` with the text as its value: an object of plain
/// members gets that member, in place of one of the same name.
#[verifier::external_body]
pub(crate) fn insert_text(
    object: &mut serde_json::Map<String, serde_json::Value>,
    name: &str,
    text: &str,
)
    requires
        json_members(*old(object)) is Some,
    ensures
        json_members(*final(object)) == with_member(
            json_members(*old(object)),
            name@,
            JsonValue::Text(text@),
        ),
{
    object.insert(name.to_owned(), serde_json::Value::from(text));
}

/// `serde_json::Map::insert` with an array of the bytes as its value: an object of
/// plain members gets that member, in place of one of the same name.
#[verifier::external_body]
pub(crate) fn insert_bytes(
    object: &mut serde_json::Map<String, serde_json::Value>,
    name: &str,
    bytes: &[u8],
)
    requires
        json_members(*old(object)) is Some,
    ensures
        json_members(*final(object)) == with_member(
            json_members(*old(object)),
            name@,
            JsonValue::Bytes(bytes@),
        ),
{
    object.insert(name.to_owned(), serde_json::Value::from(bytes));
}

/// `serde_json::to_vec_pretty`: the pretty-printed text of an object of plain
/// members. With string keys, and numbers, strings and arrays of numbers as values,
/// it can always be written, and reading its text gives back its members.
#[verifier::external_body]
pub(crate) fn write_pretty(object: &serde_json::Map<String, serde_json::Value>) -> (text: Result<
    Vec<u8>,
    serde_json::Error,
>)
    requires
        json_members(*object) is Some,
    ensures
        text is Ok,
        text->Ok_0@ == pretty_json(json_members(*object)->0),
        json_object_in(text->Ok_0@) == json_members(*object),
{
    serde_json::to_vec_pretty(object)
}

} // verus!
