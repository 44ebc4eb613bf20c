//! Attachments carried in document bodies: inline base64 data is decoded,
//! addressed by its digest and replaced with a stub; stubs are inflated
//! back into inline data on request.

use vstd::prelude::*;
use vstd::utf8::encode_utf8;
use base64::Engine;
use crate::auth::{base64_decode, base64_standard_decode};
use crate::digest::{attachment_digest_spec, digest_of};
use crate::json::{
    empty_json_object, json_as_str, json_bool, json_entries, json_from_bool, json_from_string, json_from_u64,
    json_get, json_insert, json_is_object, json_member, json_object_check, json_object_entries, json_remove,
    json_u64, member_text,
};

verus! {

/// The bytes that inline attachment data (base64 text) stands for.
pub open spec fn decoded_data(data: Seq<char>) -> Option<Seq<u8>> {
    base64_standard_decode(encode_utf8(data))
}

/// Decodes inline attachment data into its bytes and their digest; an
/// error, with the base64 decoder's description, where the data is not
/// valid base64.
pub fn decode_inline_attachment(data: &str) -> (r: Result<(Vec<u8>, String), String>)
    ensures
        match r {
            Ok((b, d)) => decoded_data(data@) == Some(b@) && d@ == attachment_digest_spec(b@),
            Err(_) => decoded_data(data@) is None,
        },
{
    match base64_decode(data) {
        Ok(bytes) => {
            let digest = digest_of(bytes.as_slice());
            Ok((bytes, digest))
        },
        Err(e) => Err(e),
    }
}

/// A stub in the shape every stub has: an object whose only members are
/// `content_type`, `digest` (the text `digest`), `length` (the number
/// `length`) and `stub` (`true`).
pub open spec fn stub_shape(stub: serde_json::Value, digest: Seq<char>, length: u64) -> bool {
    &&& json_is_object(stub)
    &&& json_member(stub, "content_type"@) is Some
    &&& member_text(stub, "digest"@) == Some(digest)
    &&& json_member(stub, "length"@) matches Some(l) && json_u64(l) == Some(length)
    &&& json_member(stub, "stub"@) matches Some(t) && json_bool(t) == Some(true)
    &&& forall|k: Seq<char>|
        k != "content_type"@ && k != "digest"@ && k != "length"@ && k != "stub"@ ==> #[trigger] json_member(stub, k)
            is None
}

/// The stub that stands for stored attachment bytes in a document body.
pub fn attachment_stub(content_type: serde_json::Value, digest: String, length: u64) -> (r: serde_json::Value)
    ensures
        stub_shape(r, digest@, length),
        json_member(r, "content_type"@) == Some(content_type),
{
    proof {
        reveal_strlit("content_type");
        reveal_strlit("digest");
        reveal_strlit("length");
        reveal_strlit("stub");
    }
    let ghost d = digest@;
    let ghost ct = content_type;
    proof {
        assert("content_type"@ != "digest"@ && "content_type"@ != "length"@ && "content_type"@ != "stub"@) by {
            assert("content_type"@[0] != "digest"@[0]);
            assert("content_type"@[0] != "length"@[0]);
            assert("content_type"@[0] != "stub"@[0]);
        }
        assert("digest"@ != "length"@ && "digest"@ != "stub"@ && "length"@ != "stub"@) by {
            assert("digest"@[0] != "length"@[0]);
            assert("digest"@[0] != "stub"@[0]);
            assert("length"@[0] != "stub"@[0]);
        }
    }
    let mut s = empty_json_object();
    json_insert(&mut s, "content_type", content_type);
    let dv = json_from_string(digest);
    json_insert(&mut s, "digest", dv);
    let lv = json_from_u64(length);
    json_insert(&mut s, "length", lv);
    let tv = json_from_bool(true);
    json_insert(&mut s, "stub", tv);
    proof {
        assert(json_member(s, "content_type"@) == Some(ct));
        assert(json_member(s, "digest"@) == Some(dv));
        assert(json_member(s, "length"@) == Some(lv));
        assert(json_member(s, "stub"@) == Some(tv));
    }
    s
}

/// The content type given to an inline attachment that names none.
pub open spec fn default_content_type() -> Seq<char> {
    "application/octet-stream"@
}

/// The stub that replaces inline attachment `entry` whose data decodes to
/// `bytes`: the entry's `content_type` (a string `application/octet-stream`
/// where it has none), the digest and length of the bytes.
pub open spec fn inline_stub(stub: serde_json::Value, entry: serde_json::Value, bytes: Seq<u8>) -> bool {
    &&& stub_shape(stub, attachment_digest_spec(bytes), bytes.len() as u64)
    &&& match json_member(entry, "content_type"@) {
        Some(c) => json_member(stub, "content_type"@) == Some(c),
        None => member_text(stub, "content_type"@) == Some(default_content_type()),
    }
}

/// Of the first `n` members of an `_attachments` object, those that carry
/// inline data (a string `data`), as (name, data, entry), in order.
pub open spec fn inline_upto(es: Seq<(Seq<char>, serde_json::Value)>, n: int) -> Seq<(Seq<char>, Seq<char>, serde_json::Value)>
    decreases n,
{
    if n <= 0 {
        Seq::empty()
    } else {
        let prev = inline_upto(es, n - 1);
        match member_text(es[n - 1].1, "data"@) {
            Some(d) => prev.push((es[n - 1].0, d, es[n - 1].1)),
            None => prev,
        }
    }
}

/// The members of `_attachments` that carry inline data, in the object's
/// order; none where it is not an object. Entries without a string `data`
/// (stubs already) are not among them.
pub open spec fn inline_items(atts: serde_json::Value) -> Seq<(Seq<char>, Seq<char>, serde_json::Value)> {
    match json_entries(atts) {
        Some(es) => inline_upto(es, es.len() as int),
        None => Seq::empty(),
    }
}

proof fn lemma_inline_upto_prefix(es: Seq<(Seq<char>, serde_json::Value)>, n: int, m: int)
    requires
        0 <= n <= m,
    ensures
        inline_upto(es, n).len() <= inline_upto(es, m).len(),
        forall|j: int| 0 <= j < inline_upto(es, n).len() ==> #[trigger] inline_upto(es, m)[j] == inline_upto(es, n)[j],
    decreases m - n,
{
    if n < m {
        lemma_inline_upto_prefix(es, n, m - 1);
    }
}

proof fn lemma_inline_upto_members(es: Seq<(Seq<char>, serde_json::Value)>, n: int)
    requires
        0 <= n <= es.len(),
    ensures
        forall|j: int| 0 <= j < n && (#[trigger] member_text(es[j].1, "data"@)) is Some
            ==> inline_upto(es, n).contains((es[j].0, member_text(es[j].1, "data"@)->0, es[j].1)),
        forall|k: int| 0 <= k < inline_upto(es, n).len() ==> exists|j: int| 0 <= j < n
            && member_text(es[j].1, "data"@) == Some((#[trigger] inline_upto(es, n)[k]).1)
            && inline_upto(es, n)[k] == (es[j].0, inline_upto(es, n)[k].1, es[j].1),
        (forall|j: int| 0 <= j < n ==> (#[trigger] member_text(es[j].1, "data"@)) is Some) ==> {
            &&& inline_upto(es, n).len() == n
            &&& forall|k: int| 0 <= k < n ==> #[trigger] inline_upto(es, n)[k]
                == (es[k].0, member_text(es[k].1, "data"@)->0, es[k].1)
        },
    decreases n,
{
    if n > 0 {
        lemma_inline_upto_members(es, n - 1);
        let prev = inline_upto(es, n - 1);
        let cur = inline_upto(es, n);
        assert forall|j: int| 0 <= j < n && (#[trigger] member_text(es[j].1, "data"@)) is Some
            implies cur.contains((es[j].0, member_text(es[j].1, "data"@)->0, es[j].1)) by {
            let x = (es[j].0, member_text(es[j].1, "data"@)->0, es[j].1);
            if j < n - 1 {
                assert(prev.contains(x));
                let q = choose|q: int| 0 <= q < prev.len() && prev[q] == x;
                if member_text(es[n - 1].1, "data"@) is Some {
                    assert(cur[q] == x);
                }
            } else {
                assert(cur[prev.len() as int] == x);
            }
        }
        assert forall|k: int| 0 <= k < cur.len() implies exists|j: int| 0 <= j < n
            && member_text(es[j].1, "data"@) == Some((#[trigger] cur[k]).1)
            && cur[k] == (es[j].0, cur[k].1, es[j].1) by {
            if k < prev.len() {
                assert(cur[k] == prev[k]);
                let j = choose|j: int| 0 <= j < n - 1
                    && member_text(es[j].1, "data"@) == Some((#[trigger] prev[k]).1)
                    && prev[k] == (es[j].0, prev[k].1, es[j].1);
                assert(0 <= j < n);
            } else {
                assert(member_text(es[n - 1].1, "data"@) == Some(cur[k].1));
            }
        }
    }
}

/// Every member of `_attachments` with string `data`, however long, is an
/// inline attachment to store, with that data, and nothing else is; where
/// every member carries data, they all are, in the object's order.
pub proof fn lemma_inline_items_are_the_members_with_data(atts: serde_json::Value, es: Seq<(Seq<char>, serde_json::Value)>)
    requires
        json_entries(atts) == Some(es),
    ensures
        forall|j: int| 0 <= j < es.len() && (#[trigger] member_text(es[j].1, "data"@)) is Some
            ==> inline_items(atts).contains((es[j].0, member_text(es[j].1, "data"@)->0, es[j].1)),
        forall|k: int| 0 <= k < inline_items(atts).len() ==> exists|j: int| 0 <= j < es.len()
            && member_text(es[j].1, "data"@) == Some((#[trigger] inline_items(atts)[k]).1)
            && inline_items(atts)[k] == (es[j].0, inline_items(atts)[k].1, es[j].1),
        (forall|j: int| 0 <= j < es.len() ==> (#[trigger] member_text(es[j].1, "data"@)) is Some) ==> {
            &&& inline_items(atts).len() == es.len()
            &&& forall|k: int| 0 <= k < es.len() ==> #[trigger] inline_items(atts)[k]
                == (es[k].0, member_text(es[k].1, "data"@)->0, es[k].1)
        },
{
    lemma_inline_upto_members(es, es.len() as int);
}

/// What storing the inline attachments of `_attachments` takes: for each
/// member with inline data, in order, its name, decoded bytes and the stub
/// that replaces it. Fails, naming the first such member (with the base64
/// decoder's description of the fault), where any one's data is not valid
/// base64, so that nothing is stored unless all are.
pub fn plan_inline_attachments(atts: &serde_json::Value) -> (r: Result<Vec<(String, Vec<u8>, serde_json::Value)>, (String, String)>)
    ensures
        match r {
            Ok(v) => v@.len() == inline_items(*atts).len() && forall|j: int| 0 <= j < v@.len() ==> {
                let it = inline_items(*atts)[j];
                &&& (#[trigger] v@[j]).0@ == it.0
                &&& decoded_data(it.1) == Some(v@[j].1@)
                &&& inline_stub(v@[j].2, it.2, v@[j].1@)
            },
            Err((name, _)) => exists|k: int| {
                &&& 0 <= k < inline_items(*atts).len()
                &&& decoded_data(#[trigger] inline_items(*atts)[k].1) is None
                &&& name@ == inline_items(*atts)[k].0
                &&& forall|j: int| 0 <= j < k ==> decoded_data(#[trigger] inline_items(*atts)[j].1) is Some
            },
        },
{
    proof {
        reveal_strlit("data");
        reveal_strlit("content_type");
        reveal_strlit("application/octet-stream");
    }
    let entries = match json_object_entries(atts) {
        Some(e) => e,
        None => {
            return Ok(Vec::new());
        },
    };
    let ghost es = entries@.map_values(|e: (String, serde_json::Value)| (e.0@, e.1));
    let mut out: Vec<(String, Vec<u8>, serde_json::Value)> = Vec::new();
    let mut i: usize = 0;
    while i < entries.len()
        invariant
            i <= entries@.len(),
            es == entries@.map_values(|e: (String, serde_json::Value)| (e.0@, e.1)),
            json_entries(*atts) == Some(es),
            out@.len() == inline_upto(es, i as int).len(),
            forall|j: int| 0 <= j < out@.len() ==> {
                let it = inline_upto(es, i as int)[j];
                &&& (#[trigger] out@[j]).0@ == it.0
                &&& decoded_data(it.1) == Some(out@[j].1@)
                &&& inline_stub(out@[j].2, it.2, out@[j].1@)
            },
        decreases entries.len() - i,
    {
        let ghost prev = inline_upto(es, i as int);
        proof {
            assert(es[i as int] == (entries@[i as int].0@, entries@[i as int].1));
        }
        let entry = &entries[i].1;
        let data = match json_get(entry, "data") {
            Some(d) => json_as_str(d),
            None => None,
        };
        match data {
            Some(d) => {
                let ghost item = (entries@[i as int].0@, d@, *entry);
                proof {
                    assert(inline_upto(es, i + 1) == prev.push(item));
                }
                match decode_inline_attachment(d) {
                    Ok((bytes, digest)) => {
                        let content_type = match json_get(entry, "content_type") {
                            Some(c) => c.clone(),
                            None => json_from_string("application/octet-stream".to_owned()),
                        };
                        let length = bytes.len() as u64;
                        let stub = attachment_stub(content_type, digest, length);
                        out.push((entries[i].0.clone(), bytes, stub));
                        proof {
                            assert forall|j: int| 0 <= j < out@.len() implies {
                                let it = inline_upto(es, i + 1)[j];
                                &&& (#[trigger] out@[j]).0@ == it.0
                                &&& decoded_data(it.1) == Some(out@[j].1@)
                                &&& inline_stub(out@[j].2, it.2, out@[j].1@)
                            } by {
                                if j < prev.len() {
                                    assert(inline_upto(es, i + 1)[j] == prev[j]);
                                }
                            }
                        }
                    },
                    Err(why) => {
                        proof {
                            let full = inline_items(*atts);
                            let k = prev.len() as int;
                            lemma_inline_upto_prefix(es, i + 1, es.len() as int);
                            assert(full[k] == item);
                            assert forall|j: int| 0 <= j < k implies decoded_data(#[trigger] full[j].1) is Some by {
                                assert(full[j] == inline_upto(es, i + 1)[j]);
                                assert(inline_upto(es, i + 1)[j] == prev[j]);
                                assert(decoded_data(prev[j].1) == Some(out@[j].1@));
                            }
                            assert(0 <= k < full.len());
                            assert(decoded_data(full[k].1) is None);
                            assert(entries@[i as int].0@ == full[k].0);
                        }
                        return Err((entries[i].0.clone(), why));
                    },
                }
            },
            None => {
                proof {
                    assert(inline_upto(es, i + 1) == prev);
                }
            },
        }
        i = i + 1;
    }
    proof {
        assert(inline_items(*atts) == inline_upto(es, es.len() as int));
    }
    Ok(out)
}

/// The base64 text (standard alphabet, padded) of `bytes`.
pub uninterp spec fn base64_standard_encode(bytes: Seq<u8>) -> Seq<char>;

/// `base64::engine::general_purpose::STANDARD.encode`.
#[verifier::external_body]
fn base64_encode(b: &[u8]) -> (r: String)
    ensures
        r@ == base64_standard_encode(b@),
{
    base64::engine::general_purpose::STANDARD.encode(b)
}

/// The digest that an attachment stub names, where it names one as text.
pub fn stub_digest(entry: &serde_json::Value) -> (r: Option<String>)
    ensures
        match r {
            Some(d) => member_text(*entry, "digest"@) == Some(d@),
            None => member_text(*entry, "digest"@) is None,
        },
{
    proof {
        reveal_strlit("digest");
    }
    match json_get(entry, "digest") {
        Some(d) => match json_as_str(d) {
            Some(t) => Some(t.to_owned()),
            None => None,
        },
        None => None,
    }
}

/// An attachment entry with its stored bytes put back inline: `data` set
/// to their base64 text and `stub` removed, every other member kept; a
/// value that is not an object is returned as it is.
pub fn inflate_entry(entry: &serde_json::Value, stored: &[u8]) -> (r: serde_json::Value)
    ensures
        json_is_object(*entry) ==> {
            &&& json_is_object(r)
            &&& member_text(r, "data"@) == Some(base64_standard_encode(stored@))
            &&& json_member(r, "stub"@) is None
            &&& forall|k: Seq<char>| k != "data"@ && k != "stub"@ ==> #[trigger] json_member(r, k) == json_member(*entry, k)
        },
        !json_is_object(*entry) ==> r == *entry,
{
    proof {
        reveal_strlit("data");
        reveal_strlit("stub");
    }
    proof {
        assert("data"@ != "stub"@) by {
            assert("data"@[0] != "stub"@[0]);
        }
    }
    let mut r = entry.clone();
    if json_object_check(&r) {
        let text = base64_encode(stored);
        let dv = json_from_string(text);
        json_insert(&mut r, "data", dv);
        json_remove(&mut r, "stub");
        proof {
            assert(json_member(r, "data"@) == Some(dv));
        }
    }
    r
}

} // verus!
