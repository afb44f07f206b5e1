//! JSON documents, as `serde_json` reads and writes them.
use vstd::prelude::*;

verus! {

/// A JSON value. A number that is not an integer is known by its decimal text.
pub enum Json {
    Null,
    Bool(bool),
    Integer(int),
    Fraction(Seq<char>),
    Text(Seq<char>),
    Array(Seq<Json>),
    Object(Map<Seq<char>, Json>),
}

/// `serde_json::Value`, of which nothing is known but what [`json_of`] says.
#[verifier::external_type_specification]
#[verifier::external_body]
pub struct ExValue(serde_json::Value);

/// What a `serde_json::Value` holds.
pub uninterp spec fn json_of(value: serde_json::Value) -> Json;

/// The JSON value that the whole of `text` denotes, where it is a JSON document.
pub uninterp spec fn json_document(text: Seq<char>) -> Option<Json>;

/// The compact text of a JSON value.
pub uninterp spec fn json_text(value: Json) -> Seq<char>;

/// The member of an object under `key`.
pub open spec fn member_of(value: Json, key: Seq<char>) -> Option<Json> {
    match value {
        Json::Object(members) => if members.contains_key(key) {
            Some(members[key])
        } else {
            None
        },
        _ => None,
    }
}

/// The text of a JSON string.
pub open spec fn text_of(value: Json) -> Option<Seq<char>> {
    match value {
        Json::Text(text) => Some(text),
        _ => None,
    }
}

/// The value as an integer between `low` and `high`.
pub open spec fn integer_of(value: Json, low: int, high: int) -> Option<int> {
    match value {
        Json::Integer(n) => if low <= n <= high {
            Some(n)
        } else {
            None
        },
        _ => None,
    }
}

/// The value of an optional JSON value.
pub open spec fn json_of_option(value: Option<serde_json::Value>) -> Option<Json> {
    match value {
        Some(v) => Some(json_of(v)),
        None => None,
    }
}

/// No line of the text starts with a `d`.
pub open spec fn unmarked(text: Seq<char>) -> bool {
    forall|i: int| 0 <= i < text.len() && #[trigger] text[i] == 'd' ==> i > 0 && text[i - 1] != '\n'
}

/// `serde_json::from_str` reads one JSON document. It succeeds on exactly the texts that are
/// documents, and what it returns depends on the text alone.
///
/// In a document a `d` stands only inside a string, since no other token has that letter, and
/// a string holds no raw control character. So no line starts with a `d`.
#[verifier::external_body]
pub(crate) fn parse(text: &str) -> (value: Option<serde_json::Value>)
    ensures
        json_of_option(value) == json_document(text@),
        value is Some ==> unmarked(text@),
{
    serde_json::from_str(text).ok()
}

/// `serde_json::Value::get` with a string returns the member of an object under that key, and
/// nothing for a value that is no object.
#[verifier::external_body]
pub(crate) fn member<'a>(value: &'a serde_json::Value, key: &str) -> (found: Option<
    &'a serde_json::Value,
>)
    ensures
        found is Some == member_of(json_of(*value), key@) is Some,
        found matches Some(v) ==> member_of(json_of(*value), key@) == Some(json_of(*v)),
{
    value.get(key)
}

/// `serde_json::Value::is_null` tells JSON's null from everything else.
pub assume_specification[ serde_json::Value::is_null ](value: &serde_json::Value) -> (null: bool)
    ensures
        null == (json_of(*value) == Json::Null),
;

/// `serde_json::Value::as_str` returns the text of a JSON string, and nothing for any other
/// value.
pub assume_specification<'a>[ serde_json::Value::as_str ](value: &'a serde_json::Value) -> (text:
    Option<&'a str>)
    ensures
        text is Some == text_of(json_of(*value)) is Some,
        text matches Some(t) ==> text_of(json_of(*value)) == Some(t@),
;

/// `serde_json::Value::as_u64` returns an integer that fits in a `u64`, and nothing for any
/// other value. A number written with a fraction or an exponent is no integer.
pub assume_specification[ serde_json::Value::as_u64 ](value: &serde_json::Value) -> (number: Option<
    u64,
>)
    ensures
        number is Some == integer_of(json_of(*value), 0, u64::MAX as int) is Some,
        number matches Some(n) ==> integer_of(json_of(*value), 0, u64::MAX as int) == Some(
            n as int,
        ),
;

/// `serde_json::Value::as_i64` returns an integer that fits in an `i64`, and nothing for any
/// other value. A number written with a fraction or an exponent is no integer.
pub assume_specification[ serde_json::Value::as_i64 ](value: &serde_json::Value) -> (number: Option<
    i64,
>)
    ensures
        number is Some == integer_of(json_of(*value), i64::MIN as int, i64::MAX as int) is Some,
        number matches Some(n) ==> integer_of(json_of(*value), i64::MIN as int, i64::MAX as int)
            == Some(n as int),
;

/// The clone of a `serde_json::Value` holds the same JSON value.
pub assume_specification[ <serde_json::Value as Clone>::clone ](value: &serde_json::Value) -> (copy:
    serde_json::Value)
    ensures
        json_of(copy) == json_of(*value),
;

/// `serde_json::Value::to_string` writes a value as compact text, which depends on the value
/// alone: the members of an object come in the order of their keys.
#[verifier::external_body]
pub(crate) fn render(value: &serde_json::Value) -> (text: String)
    ensures
        text@ == json_text(json_of(*value)),
{
    value.to_string()
}

} // verus!
