//! The boundary to `serde_json`: command payloads are JSON documents, parsed
//! by `serde_json` and read member by member.

use vstd::prelude::*;

verus! {

/// `serde_json::Value`, a parsed JSON document or a part of one. Nothing of
/// what it holds is known here but what the functions below tell.
#[verifier::external_type_specification]
#[verifier::external_body]
pub struct ExJsonValue(serde_json::Value);

/// `serde_json::Error`, why some bytes are no JSON document.
#[verifier::external_type_specification]
#[verifier::external_body]
pub struct ExJsonError(serde_json::Error);

/// The document that `serde_json::from_slice` reads from `bytes`, if it
/// accepts them.
pub uninterp spec fn json_document(bytes: Seq<u8>) -> Option<serde_json::Value>;

/// The member called `name` of the JSON object `v`, as `Value::get` finds it.
pub uninterp spec fn json_member(v: serde_json::Value, name: Seq<char>) -> Option<
    serde_json::Value,
>;

/// The text of `v` where `v` is a JSON string, as `Value::as_str` gives it.
pub uninterp spec fn json_text(v: serde_json::Value) -> Option<Seq<char>>;

/// The number `v` where it is an integer that fits `u64`, as `Value::as_u64`
/// gives it.
pub uninterp spec fn json_unsigned(v: serde_json::Value) -> Option<u64>;

/// Whether `v` is JSON `null`, as `Value::is_null` tells.
pub uninterp spec fn json_null(v: serde_json::Value) -> bool;

/// `serde_json::from_slice` at type `Value`: parses `bytes` as one JSON
/// document. The outcome is a function of the bytes alone.
#[verifier::external_body]
pub(crate) fn parse_document(bytes: &[u8]) -> (r: Result<serde_json::Value, serde_json::Error>)
    ensures
        match r {
            Ok(v) => json_document(bytes@) == Some(v),
            Err(_) => json_document(bytes@) is None,
        },
{
    serde_json::from_slice::<serde_json::Value>(bytes)
}

/// `Value::get` with a string index: the member of an object by its name,
/// `None` where `v` is no object or has no such member.
#[verifier::external_body]
pub(crate) fn member<'a>(v: &'a serde_json::Value, name: &str) -> (r: Option<
    &'a serde_json::Value,
>)
    ensures
        match r {
            Some(m) => json_member(*v, name@) == Some(*m),
            None => json_member(*v, name@) is None,
        },
{
    v.get(name)
}

/// `Value::as_str`: the text of a JSON string, `None` for any other value.
/// The outcome is a function of the value alone.
pub assume_specification<'a>[ serde_json::Value::as_str ](v: &'a serde_json::Value) -> (r: Option<
    &'a str,
>)
    ensures
        match r {
            Some(s) => json_text(*v) == Some(s@),
            None => json_text(*v) is None,
        },
;

/// `Value::as_u64`: the number where the value is an integer from 0 to
/// 2^64 - 1, `None` for any other value. The outcome is a function of the
/// value alone.
pub assume_specification[ serde_json::Value::as_u64 ](v: &serde_json::Value) -> (r: Option<u64>)
    ensures
        r == json_unsigned(*v),
;

/// `Value::is_null`: whether the value is JSON `null`. The outcome is a
/// function of the value alone.
pub assume_specification[ serde_json::Value::is_null ](v: &serde_json::Value) -> (r: bool)
    ensures
        r == json_null(*v),
;

} // verus!
