//! Content digests: attachment addresses and the hash part of the
//! revision ids that the server mints, both from SHA-256.

use vstd::prelude::*;
use sha2::Digest;
use vstd::utf8::encode_utf8;
use crate::bytes::{be_value, bytes_hex, push_bytes_hex, u64_from_be};

verus! {

/// The SHA-256 digest of `data`.
pub uninterp spec fn sha256_digest(data: Seq<u8>) -> Seq<u8>;

/// `sha2::Sha256` over `data`: its digest, which is 32 bytes long.
#[verifier::external_body]
fn sha256(data: &[u8]) -> (r: Vec<u8>)
    ensures
        r@ == sha256_digest(data@),
        r@.len() == 32,
{
    sha2::Sha256::digest(data).to_vec()
}

/// The compact JSON text of a value.
pub uninterp spec fn json_text(v: serde_json::Value) -> Seq<char>;

/// `serde_json::Value`'s `Display`: the value's compact JSON text.
#[verifier::external_body]
fn json_to_string(v: &serde_json::Value) -> (r: String)
    ensures
        r@ == json_text(*v),
{
    v.to_string()
}

/// The 64-bit hash of a document body: the first eight bytes, big-endian,
/// of the SHA-256 digest of its JSON text.
pub open spec fn content_hash_spec(body: serde_json::Value) -> nat {
    be_value(sha256_digest(encode_utf8(json_text(body))).take(8))
}

/// Hash of a document body, the hash part of the revision ids that
/// last-write-wins edits get.
pub fn content_hash(body: &serde_json::Value) -> (r: u64)
    ensures
        r == content_hash_spec(*body),
{
    let text = json_to_string(body);
    let d = sha256(text.as_str().as_bytes());
    let first = &d.as_slice()[0..8];
    proof {
        assert(first@ =~= d@.take(8));
    }
    u64_from_be(first)
}

/// `"sha256-"` followed by the lower-case hex of the digest of `bytes`.
pub open spec fn attachment_digest_spec(bytes: Seq<u8>) -> Seq<char> {
    seq!['s', 'h', 'a', '2', '5', '6', '-'] + bytes_hex(sha256_digest(bytes))
}

/// The content address under which attachment bytes are stored.
pub fn digest_of(bytes: &[u8]) -> (r: String)
    ensures
        r@ == attachment_digest_spec(bytes@),
{
    let d = sha256(bytes);
    let mut out = crate::text::string_from_chars(&vec!['s', 'h', 'a', '2', '5', '6', '-']);
    push_bytes_hex(&mut out, d.as_slice());
    out
}

} // verus!
