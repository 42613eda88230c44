//! The JSON boundary: `serde_json::Value` carried as an opaque payload tree,
//! with the few operations the bridge needs declared as trusted wrappers.
//! Each operation's result is a function of its arguments alone, so each is
//! given a name that the wrappers tie down; the bridge's own contracts are
//! then exact over those names. The bridge never looks inside a value; it
//! only serializes params, parses a response body, and reads the envelope
//! fields out of it.

use vstd::prelude::*;

verus! {

/// `serde_json::Value`, the opaque tagged tree carried as call payload and
/// call result.
#[verifier::external_type_specification]
#[verifier::external_body]
pub struct ExValue(serde_json::Value);

/// `serde_json::Error`, the opaque decode-failure report.
#[verifier::external_type_specification]
#[verifier::external_body]
pub struct ExJsonError(serde_json::Error);

/// The JSON text of a value. `serde_json` serialization is deterministic, so
/// the text is a function of the value alone.
pub uninterp spec fn json_text_of(v: serde_json::Value) -> Seq<u8>;

/// The value a byte string parses to as JSON, or nothing when it is not
/// valid JSON. Parsing is a function of the bytes alone.
pub uninterp spec fn parsed_of(bytes: Seq<u8>) -> Option<serde_json::Value>;

/// The member of `v` under `key`: nothing when `v` is not an object or has
/// no such member.
pub uninterp spec fn member_of(v: serde_json::Value, key: Seq<char>) -> Option<serde_json::Value>;

/// The value as an unsigned 64-bit integer, when it is an integer that fits.
pub uninterp spec fn u64_of(v: serde_json::Value) -> Option<u64>;

/// Whether the value is a JSON string.
pub uninterp spec fn is_string_of(v: serde_json::Value) -> bool;

/// Whether the value is JSON `null`.
pub uninterp spec fn is_null_of(v: serde_json::Value) -> bool;

/// Whether a value nests shallowly enough for the parser to read back: the
/// serializer is unbounded, but the deserializer refuses texts nested beyond
/// its recursion limit, so only values within that depth round-trip.
pub uninterp spec fn depth_ok(v: serde_json::Value) -> bool;

/// Relies on `serde_json::to_vec`: serializes a value to its JSON text,
/// which depends on the value alone; serializing a `Value` never fails (its
/// maps have string keys). JSON is self-describing for `Value`, so for a
/// value within the deserializer's nesting limit (`depth_ok`), parsing the
/// produced text yields the value back; beyond that limit `from_slice`
/// rejects what `to_vec` wrote, so nothing is claimed there.
#[verifier::external_body]
pub fn to_json_bytes(v: &serde_json::Value) -> (r: Vec<u8>)
    ensures
        r@ == json_text_of(*v),
        depth_ok(*v) ==> parsed_of(r@) == Some(*v),
{
    serde_json::to_vec(v).unwrap()
}

/// Relies on `serde_json::from_slice::<Value>`: parses JSON text into a
/// value, or reports why the text is not valid JSON.
#[verifier::external_body]
pub fn parse_json(bytes: &[u8]) -> (r: Result<serde_json::Value, serde_json::Error>)
    ensures
        (match r {
            Ok(v) => parsed_of(bytes@) == Some(v),
            Err(_) => parsed_of(bytes@) is None,
        }),
{
    serde_json::from_slice::<serde_json::Value>(bytes)
}

/// Relies on `serde_json::Value::get`: the member of an object under `key`,
/// or `None` when the value is not an object or has no such member.
#[verifier::external_body]
pub fn json_get<'a>(v: &'a serde_json::Value, key: &str) -> (r: Option<&'a serde_json::Value>)
    ensures
        (match r {
            Some(m) => member_of(*v, key@) == Some(*m),
            None => member_of(*v, key@) is None,
        }),
{
    v.get(key)
}

/// Relies on `serde_json::Value::as_u64`: the value as an unsigned 64-bit
/// integer, or `None` when it is not an integer representable as `u64`.
#[verifier::external_body]
pub fn json_as_u64(v: &serde_json::Value) -> (r: Option<u64>)
    ensures
        r == u64_of(*v),
{
    v.as_u64()
}

/// Relies on `serde_json::Value::is_string`: whether the value is a string.
#[verifier::external_body]
pub fn json_is_string(v: &serde_json::Value) -> (r: bool)
    ensures
        r == is_string_of(*v),
{
    v.is_string()
}

/// Relies on `serde_json::Value::is_null`: whether the value is JSON `null`.
#[verifier::external_body]
pub fn json_is_null(v: &serde_json::Value) -> (r: bool)
    ensures
        r == is_null_of(*v),
{
    v.is_null()
}

/// Relies on `serde_json::Value::clone`: the clone is the same value.
#[verifier::external_body]
pub fn json_clone(v: &serde_json::Value) -> (r: serde_json::Value)
    ensures
        r == *v,
{
    v.clone()
}

} // verus!
