//! The JSON document bodies that revisions carry. Their contents are the
//! business of `serde_json`: the revision logic only carries them along.

use vstd::prelude::*;

verus! {

/// `serde_json::Value`: a document body, carried through unread.
#[verifier::external_type_specification]
#[verifier::external_body]
pub struct ExJsonValue(serde_json::Value);

/// `serde_json::Value` derives `Clone`, which copies the value field by
/// field: the copy is the same value.
pub assume_specification[ <serde_json::Value as Clone>::clone ](v: &serde_json::Value) -> (r: serde_json::Value)
    ensures
        r == *v,
;

} // verus!

verus! {

/// `serde_json::Error`: why a body did not encode or decode.
#[verifier::external_type_specification]
#[verifier::external_body]
pub struct ExJsonError(serde_json::Error);

/// The JSON bytes of a value, where it encodes.
pub uninterp spec fn json_encoding(v: serde_json::Value) -> Option<Seq<u8>>;

/// The value that JSON bytes decode to, where they do.
pub uninterp spec fn json_decoding(bytes: Seq<u8>) -> Option<serde_json::Value>;

/// `serde_json::to_vec`: the value's JSON bytes.
#[verifier::external_body]
pub(crate) fn json_to_vec(v: &serde_json::Value) -> (r: Result<Vec<u8>, serde_json::Error>)
    ensures
        match r {
            Ok(b) => json_encoding(*v) == Some(b@),
            Err(_) => json_encoding(*v) is None,
        },
{
    serde_json::to_vec(v)
}

/// `serde_json::from_slice`: the value that `bytes` hold as JSON. Nothing
/// is said of how this relates to `json_encoding`: the parser gives up
/// below 128 levels of nesting, which the encoder writes freely, and
/// floating-point numbers need not read back to the same value.
#[verifier::external_body]
pub(crate) fn json_from_slice(bytes: &[u8]) -> (r: Result<serde_json::Value, serde_json::Error>)
    ensures
        match r {
            Ok(v) => json_decoding(bytes@) == Some(v),
            Err(_) => json_decoding(bytes@) is None,
        },
{
    serde_json::from_slice(bytes)
}

} // verus!

verus! {

/// The member `key` of a JSON object; `None` for a missing key or a value
/// that is not an object.
pub uninterp spec fn json_member(v: serde_json::Value, key: Seq<char>) -> Option<serde_json::Value>;

/// The text of a JSON string; `None` for any other value.
pub uninterp spec fn json_string(v: serde_json::Value) -> Option<Seq<char>>;

/// The number of a JSON number that is a `u64`; `None` otherwise.
pub uninterp spec fn json_u64(v: serde_json::Value) -> Option<u64>;

/// The items of a JSON array; `None` for any other value.
pub uninterp spec fn json_items(v: serde_json::Value) -> Option<Seq<serde_json::Value>>;

/// Whether a JSON value is an object.
pub uninterp spec fn json_is_object(v: serde_json::Value) -> bool;

/// `serde_json::Value::get` with a string key, which finds members of
/// objects only.
#[verifier::external_body]
pub(crate) fn json_get<'a>(v: &'a serde_json::Value, key: &str) -> (r: Option<&'a serde_json::Value>)
    ensures
        match r {
            Some(x) => json_member(*v, key@) == Some(*x) && json_is_object(*v),
            None => json_member(*v, key@) is None,
        },
{
    v.get(key)
}

/// `serde_json::Value::as_str`.
#[verifier::external_body]
pub(crate) fn json_as_str(v: &serde_json::Value) -> (r: Option<&str>)
    ensures
        match r {
            Some(s) => json_string(*v) == Some(s@),
            None => json_string(*v) is None,
        },
{
    v.as_str()
}

/// `serde_json::Value::as_u64`.
#[verifier::external_body]
pub(crate) fn json_as_u64(v: &serde_json::Value) -> (r: Option<u64>)
    ensures
        r == json_u64(*v),
{
    v.as_u64()
}

/// `serde_json::Value::as_array`.
#[verifier::external_body]
pub(crate) fn json_as_array(v: &serde_json::Value) -> (r: Option<&Vec<serde_json::Value>>)
    ensures
        match r {
            Some(a) => json_items(*v) == Some(a@),
            None => json_items(*v) is None,
        },
{
    v.as_array()
}

/// `serde_json::Value::is_object`.
#[verifier::external_body]
pub(crate) fn json_object_check(v: &serde_json::Value) -> (r: bool)
    ensures
        r == json_is_object(*v),
{
    v.is_object()
}

/// Whether a JSON value is `null`.
pub uninterp spec fn json_is_null(v: serde_json::Value) -> bool;

/// `serde_json::Value::is_null`; `null` is no object and has no members.
#[verifier::external_body]
pub(crate) fn json_null_check(v: &serde_json::Value) -> (r: bool)
    ensures
        r == json_is_null(*v),
        r ==> !json_is_object(*v) && forall|k: Seq<char>| #[trigger] json_member(*v, k) is None,
{
    v.is_null()
}

/// The empty JSON object `{}`: an object without members.
pub open spec fn json_empty_object(v: serde_json::Value) -> bool {
    json_is_object(v) && forall|k: Seq<char>| #[trigger] json_member(v, k) is None
}

/// `serde_json::Value::Object(serde_json::Map::new())`: an object whose
/// map is empty, so that `get` finds no key in it.
#[verifier::external_body]
pub(crate) fn empty_json_object() -> (v: serde_json::Value)
    ensures
        json_empty_object(v),
{
    serde_json::Value::Object(serde_json::Map::new())
}

/// The text of member `key` of a JSON object, where it is a string.
pub open spec fn member_text(v: serde_json::Value, key: Seq<char>) -> Option<Seq<char>> {
    match json_member(v, key) {
        Some(x) => json_string(x),
        None => None,
    }
}

/// The members of a JSON object in the order its map holds them, each
/// with its key; `None` for any other value.
pub uninterp spec fn json_entries(v: serde_json::Value) -> Option<Seq<(Seq<char>, serde_json::Value)>>;

/// `serde_json::Value::as_object` and the map's `iter`: the object's
/// members, copied out in the map's order; each is what `get` finds under
/// its key.
#[verifier::external_body]
pub(crate) fn json_object_entries(v: &serde_json::Value) -> (r: Option<Vec<(String, serde_json::Value)>>)
    ensures
        match r {
            Some(es) => json_is_object(*v)
                && json_entries(*v) == Some(es@.map_values(|e: (String, serde_json::Value)| (e.0@, e.1)))
                && forall|i: int| 0 <= i < es@.len() ==> json_member(*v, (#[trigger] es@[i]).0@) == Some(es@[i].1),
            None => !json_is_object(*v) && json_entries(*v) is None,
        },
{
    v.as_object().map(|m| m.iter().map(|(k, x)| (k.clone(), x.clone())).collect())
}

/// `serde_json::Value::String`: the JSON string with text `s`.
#[verifier::external_body]
pub(crate) fn json_from_string(s: String) -> (v: serde_json::Value)
    ensures
        json_string(v) == Some(s@),
{
    serde_json::Value::String(s)
}

/// `serde_json::Value::from` a `u64`: the JSON number `n`.
#[verifier::external_body]
pub(crate) fn json_from_u64(n: u64) -> (v: serde_json::Value)
    ensures
        json_u64(v) == Some(n),
{
    serde_json::Value::from(n)
}

/// `serde_json::Map::insert` on the map of a JSON object: afterwards `get`
/// finds `x` under `key`, and every other key what it found before.
#[verifier::external_body]
pub(crate) fn json_insert(v: &mut serde_json::Value, key: &str, x: serde_json::Value)
    requires
        json_is_object(*old(v)),
    ensures
        json_is_object(*final(v)),
        json_member(*final(v), key@) == Some(x),
        forall|k: Seq<char>| k != key@ ==> #[trigger] json_member(*final(v), k) == json_member(*old(v), k),
{
    if let serde_json::Value::Object(m) = v {
        m.insert(key.to_owned(), x);
    }
}

/// `serde_json::Map::remove` on the map of a JSON object: afterwards `get`
/// finds nothing under `key`, and every other key what it found before.
/// Any other value is left as it is.
#[verifier::external_body]
pub(crate) fn json_remove(v: &mut serde_json::Value, key: &str)
    ensures
        json_is_object(*old(v)) ==> json_is_object(*final(v)) && json_member(*final(v), key@) is None
            && forall|k: Seq<char>| k != key@ ==> #[trigger] json_member(*final(v), k) == json_member(*old(v), k),
        !json_is_object(*old(v)) ==> *final(v) == *old(v),
{
    if let serde_json::Value::Object(m) = v {
        m.remove(key);
    }
}

} // verus!

verus! {

/// The truth value of a JSON boolean; `None` for any other value.
pub uninterp spec fn json_bool(v: serde_json::Value) -> Option<bool>;

/// `serde_json::Value::as_bool`.
#[verifier::external_body]
pub(crate) fn json_as_bool(v: &serde_json::Value) -> (r: Option<bool>)
    ensures
        r == json_bool(*v),
{
    v.as_bool()
}

/// `serde_json::Value::Bool`: the JSON boolean `b`.
#[verifier::external_body]
pub(crate) fn json_from_bool(b: bool) -> (v: serde_json::Value)
    ensures
        json_bool(v) == Some(b),
{
    serde_json::Value::Bool(b)
}

} // verus!
