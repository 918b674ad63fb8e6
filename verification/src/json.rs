//! Reading one record: the members of a JSON object that hold text.

use vstd::prelude::*;

verus! {

/// `serde_json::Value`, a JSON value of any kind. Nothing is known of what
/// it holds.
#[verifier::external_type_specification]
#[verifier::external_body]
pub struct ExJsonValue(serde_json::Value);

/// `serde_json::Map`, the members of a JSON object. What it holds is known
/// through `text_members` alone.
#[verifier::external_type_specification]
#[verifier::external_body]
#[verifier::reject_recursive_types(K)]
#[verifier::reject_recursive_types(V)]
pub struct ExJsonObject<K, V>(serde_json::Map<K, V>);

/// `serde_json::Error`, why bytes were not read as JSON. Nothing is known of
/// what it holds.
#[verifier::external_type_specification]
#[verifier::external_body]
pub struct ExJsonError(serde_json::Error);

/// The members of a parsed JSON object whose value is a string, each member
/// name with the characters of its value. Members of any other kind are left
/// out.
pub uninterp spec fn text_members(object: serde_json::Map<String, serde_json::Value>) -> Map<
    Seq<char>,
    Seq<char>,
>;

/// What `serde_json` reads from `document` as a JSON object: its text
/// members, or `None` where it accepts no object there.
pub uninterp spec fn parsed_members(document: Seq<u8>) -> Option<Map<Seq<char>, Seq<char>>>;

/// Calls `serde_json::from_slice` at the type `serde_json::Map<String, Value>`.
///
/// Trusted: the outcome is a function of the bytes alone. An error stands
/// for `None` in `parsed_members`, an object for its text members.
#[verifier::external_body]
pub(crate) fn parse_object(document: &[u8]) -> (parsed: Result<
    serde_json::Map<String, serde_json::Value>,
    serde_json::Error,
>)
    ensures
        match parsed {
            Ok(object) => parsed_members(document@) == Some(text_members(object)),
            Err(_) => parsed_members(document@) is None,
        },
{
    serde_json::from_slice(document)
}

/// Calls `serde_json::Map::get` and hands out the member's text.
///
/// Trusted: the result is `Some` exactly for a member that is present and is
/// a JSON string, and then borrows its characters.
#[verifier::external_body]
pub(crate) fn text_member<'a>(
    object: &'a serde_json::Map<String, serde_json::Value>,
    name: &str,
) -> (text: Option<&'a str>)
    ensures
        match text {
            Some(characters) => text_members(*object).contains_key(name@) && text_members(
                *object,
            )[name@] == characters@,
            None => !text_members(*object).contains_key(name@),
        },
{
    match object.get(name) {
        Some(serde_json::Value::String(characters)) => Some(characters.as_str()),
        Some(_) => None,
        None => None,
    }
}

/// The value of member `name` in the JSON object that `document` holds,
/// where the object has such a member with a string value.
pub open spec fn text_field(document: Seq<u8>, name: Seq<char>) -> Option<Seq<char>> {
    match parsed_members(document) {
        Some(members) => if members.contains_key(name) {
            Some(members[name])
        } else {
            None
        },
        None => None,
    }
}

/// Parses `document` as a JSON object and returns the text of its member
/// `name`; `None` where the bytes hold no JSON object, the object has no such
/// member, or the member is not a string.
pub fn read_text_field(document: &[u8], name: &str) -> (text: Option<String>)
    ensures
        match text {
            Some(characters) => text_field(document@, name@) == Some(characters@),
            None => text_field(document@, name@) is None,
        },
{
    match parse_object(document) {
        Ok(object) => match text_member(&object, name) {
            Some(characters) => Some(characters.to_owned()),
            None => None,
        },
        Err(_) => None,
    }
}

} // verus!
