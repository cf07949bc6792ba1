//! What is read from JSON texts.
use serde_json::Value;
use vstd::prelude::*;

verus! {

/// The string at a place of a JSON text, where the text is JSON and a string is there.
pub uninterp spec fn json_string_at(text: Seq<char>, pointer: Seq<char>) -> Option<Seq<char>>;

/// `serde_json::from_str`, `Value::pointer` and `Value::as_str`: the string that a JSON
/// pointer leads to. The contract names it as a function of the text and the pointer
/// alone.
#[verifier::external_body]
pub(crate) fn json_string(text: &str, pointer: &str) -> (out: Option<String>)
    ensures
        json_string_at(text@, pointer@) == match out {
            Some(s) => Some(s@),
            None => None,
        },
{
    let value = serde_json::from_str::<Value>(text).ok()?;
    Some(value.pointer(pointer)?.as_str()?.to_string())
}

/// The number at a place of a JSON text, where the text is JSON and a number is there
/// that is whole, not negative and not too large.
pub uninterp spec fn json_number_at(text: Seq<char>, pointer: Seq<char>) -> Option<u64>;

/// `serde_json::from_str`, `Value::pointer` and `Value::as_u64`: the number that a JSON
/// pointer leads to. The contract names it as a function of the text and the pointer
/// alone.
#[verifier::external_body]
pub(crate) fn json_number(text: &str, pointer: &str) -> (out: Option<u64>)
    ensures
        out == json_number_at(text@, pointer@),
{
    let value = serde_json::from_str::<Value>(text).ok()?;
    value.pointer(pointer)?.as_u64()
}

/// The value at a place of a JSON text, written as JSON, where the text is JSON and
/// there is one.
pub uninterp spec fn json_value_at(text: Seq<char>, pointer: Seq<char>) -> Option<Seq<char>>;

/// `serde_json::from_str`, `Value::pointer` and the `Display` of `Value`: the value that
/// a JSON pointer leads to, written as JSON. The contract names it as a function of the
/// text and the pointer alone.
#[verifier::external_body]
pub(crate) fn json_value(text: &str, pointer: &str) -> (out: Option<String>)
    ensures
        json_value_at(text@, pointer@) == match out {
            Some(s) => Some(s@),
            None => None,
        },
{
    let value = serde_json::from_str::<Value>(text).ok()?;
    Some(value.pointer(pointer)?.to_string())
}

} // verus!
