//! Edits of document bodies and the reading of request payloads: setting
//! a member, adding and removing attachment stubs, and picking the fields
//! that `_bulk_docs`, `_bulk_get` and `_revs_diff` requests carry.

use vstd::prelude::*;
use crate::api::without_members;
use crate::json::{
    empty_json_object, json_as_array, json_as_bool, json_as_str, json_bool, json_get, json_insert, json_is_null,
    json_is_object, json_items, json_member, json_null_check, json_object_check, json_remove, json_string,
    member_text,
};

verus! {

/// The text of member `key` of `v`, where it is a string.
pub fn text_member(v: &serde_json::Value, key: &str) -> (r: Option<String>)
    ensures
        match r {
            Some(t) => member_text(*v, key@) == Some(t@),
            None => member_text(*v, key@) is None,
        },
{
    match json_get(v, key) {
        Some(x) => match json_as_str(x) {
            Some(t) => Some(t.to_owned()),
            None => None,
        },
        None => None,
    }
}

/// `body` with member `key` set to `x`, as `body[key] = x` sets it: a
/// `null` body becomes an object first; `None` for any body that is neither
/// (where indexing would panic).
pub fn with_member(body: &serde_json::Value, key: &str, x: serde_json::Value) -> (r: Option<serde_json::Value>)
    ensures
        match r {
            Some(b) => {
                &&& json_is_object(*body) || json_is_null(*body)
                &&& json_is_object(b)
                &&& json_member(b, key@) == Some(x)
                &&& forall|k: Seq<char>| k != key@ ==> #[trigger] json_member(b, k) == json_member(*body, k)
            },
            None => !json_is_object(*body) && !json_is_null(*body),
        },
{
    let mut b = if json_object_check(body) {
        body.clone()
    } else if json_null_check(body) {
        empty_json_object()
    } else {
        return None;
    };
    json_insert(&mut b, key, x);
    Some(b)
}

/// `body` without member `key` (`body` itself where it is no object).
pub fn without_member(body: &serde_json::Value, key: &str) -> (r: serde_json::Value)
    ensures
        without_members(r, *body, seq![key@]),
{
    let mut b = body.clone();
    json_remove(&mut b, key);
    proof {
        if json_is_object(*body) {
            assert forall|k: Seq<char>| #[trigger] json_member(b, k) == if seq![key@].contains(k) {
                None
            } else {
                json_member(*body, k)
            } by {
                if k == key@ {
                    assert(seq![key@][0] == k);
                } else {
                    assert(!seq![key@].contains(k)) by {
                        if seq![key@].contains(k) {
                            let j = choose|j: int| 0 <= j < 1 && seq![key@][j] == k;
                        }
                    }
                }
            }
        }
    }
    b
}

/// The members of `_attachments` that a body has, as an object: none for
/// a missing or `null` `_attachments`.
pub open spec fn attachments_member(body: serde_json::Value, k: Seq<char>) -> Option<serde_json::Value> {
    match json_member(body, "_attachments"@) {
        Some(a) => json_member(a, k),
        None => None,
    }
}

/// `body` with attachment `name`'s stub set, as the standalone attachment
/// upload sets it (`_attachments` created where missing, `null` taken as
/// empty); `None` where the body or its `_attachments` is neither an object
/// nor `null` (where indexing would panic).
pub fn with_attachment(body: &serde_json::Value, name: &str, stub: serde_json::Value) -> (r: Option<serde_json::Value>)
    ensures
        match r {
            Some(b) => {
                &&& json_is_object(b)
                &&& json_member(b, "_attachments"@) matches Some(a) && json_is_object(a) && json_member(a, name@) == Some(stub)
                    && forall|k: Seq<char>| k != name@ ==> #[trigger] json_member(a, k) == attachments_member(*body, k)
                &&& forall|k: Seq<char>| k != "_attachments"@ ==> #[trigger] json_member(b, k) == json_member(*body, k)
            },
            None => (!json_is_object(*body) && !json_is_null(*body)) || (json_member(*body, "_attachments"@) matches Some(a)
                && !json_is_object(a) && !json_is_null(a)),
        },
{
    proof {
        reveal_strlit("_attachments");
    }
    let mut atts = match json_get(body, "_attachments") {
        None => empty_json_object(),
        Some(a) => if json_object_check(a) {
            a.clone()
        } else if json_null_check(a) {
            empty_json_object()
        } else {
            return None;
        },
    };
    json_insert(&mut atts, name, stub);
    with_member(body, "_attachments", atts)
}

/// `body` without attachment `name`; `None` where its `_attachments` is no
/// object or has no member `name` (nothing to delete).
pub fn without_attachment(body: &serde_json::Value, name: &str) -> (r: Option<serde_json::Value>)
    ensures
        match r {
            Some(b) => {
                &&& json_member(*body, "_attachments"@) matches Some(a) && json_is_object(a) && json_member(a, name@) is Some
                &&& json_is_object(b)
                &&& json_member(b, "_attachments"@) matches Some(a2) && json_is_object(a2) && json_member(a2, name@) is None
                    && forall|k: Seq<char>| k != name@ ==> #[trigger] json_member(a2, k) == attachments_member(*body, k)
                &&& forall|k: Seq<char>| k != "_attachments"@ ==> #[trigger] json_member(b, k) == json_member(*body, k)
            },
            None => !(json_member(*body, "_attachments"@) matches Some(a) && json_is_object(a) && json_member(a, name@) is Some),
        },
{
    proof {
        reveal_strlit("_attachments");
    }
    let a = match json_get(body, "_attachments") {
        Some(a) => a,
        None => {
            return None;
        },
    };
    if !json_object_check(a) {
        return None;
    }
    if json_get(a, name).is_none() {
        return None;
    }
    let mut a2 = a.clone();
    json_remove(&mut a2, name);
    with_member(body, "_attachments", a2)
}

/// The string items of the first `n` items, in order.
pub open spec fn strings_upto(items: Seq<serde_json::Value>, n: int) -> Seq<Seq<char>>
    decreases n,
{
    if n <= 0 {
        Seq::empty()
    } else {
        let prev = strings_upto(items, n - 1);
        match json_string(items[n - 1]) {
            Some(t) => prev.push(t),
            None => prev,
        }
    }
}

/// The revision ids a `_revs_diff` entry lists: the strings of an array,
/// in order, other items skipped; none where it is not an array.
pub open spec fn listed_revs(v: serde_json::Value) -> Seq<Seq<char>> {
    match json_items(v) {
        Some(items) => strings_upto(items, items.len() as int),
        None => Seq::empty(),
    }
}

proof fn lemma_strings_upto(items: Seq<serde_json::Value>, n: int)
    requires
        0 <= n <= items.len(),
    ensures
        strings_upto(items, n).len() <= n,
        forall|i: int| 0 <= i < n && (#[trigger] json_string(items[i])) is Some
            ==> strings_upto(items, n).contains(json_string(items[i])->0),
        forall|t: Seq<char>| #[trigger] strings_upto(items, n).contains(t)
            ==> exists|i: int| 0 <= i < n && json_string(items[i]) == Some(t),
        (forall|i: int| 0 <= i < n ==> (#[trigger] json_string(items[i])) is Some) ==> {
            &&& strings_upto(items, n).len() == n
            &&& forall|i: int| 0 <= i < n ==> #[trigger] strings_upto(items, n)[i] == json_string(items[i])->0
        },
    decreases n,
{
    if n > 0 {
        lemma_strings_upto(items, n - 1);
        let prev = strings_upto(items, n - 1);
        let cur = strings_upto(items, n);
        assert forall|i: int| 0 <= i < n && (#[trigger] json_string(items[i])) is Some
            implies cur.contains(json_string(items[i])->0) by {
            let t = json_string(items[i])->0;
            if i < n - 1 {
                assert(prev.contains(t));
                let j = choose|j: int| 0 <= j < prev.len() && prev[j] == t;
                if json_string(items[n - 1]) is Some {
                    assert(cur[j] == t);
                }
            } else {
                assert(cur[prev.len() as int] == t);
            }
        }
        assert forall|t: Seq<char>| #[trigger] cur.contains(t)
            implies exists|i: int| 0 <= i < n && json_string(items[i]) == Some(t) by {
            let j = choose|j: int| 0 <= j < cur.len() && cur[j] == t;
            if j < prev.len() {
                assert(prev[j] == t);
                assert(prev.contains(t));
            } else {
                assert(json_string(items[n - 1]) == Some(t));
            }
        }
    }
}

/// `_revs_diff` reads every revision id it is sent: each string of the
/// array, whatever it holds, is in the list, and nothing else is; where
/// every item is a string the list is exactly those strings, in order.
pub proof fn lemma_listed_revs_keeps_every_string(v: serde_json::Value, items: Seq<serde_json::Value>)
    requires
        json_items(v) == Some(items),
    ensures
        forall|i: int| 0 <= i < items.len() && (#[trigger] json_string(items[i])) is Some
            ==> listed_revs(v).contains(json_string(items[i])->0),
        forall|t: Seq<char>| #[trigger] listed_revs(v).contains(t)
            ==> exists|i: int| 0 <= i < items.len() && json_string(items[i]) == Some(t),
        (forall|i: int| 0 <= i < items.len() ==> (#[trigger] json_string(items[i])) is Some) ==> {
            &&& listed_revs(v).len() == items.len()
            &&& forall|i: int| 0 <= i < items.len() ==> #[trigger] listed_revs(v)[i] == json_string(items[i])->0
        },
{
    lemma_strings_upto(items, items.len() as int);
}

/// Reads the revision ids of a `_revs_diff` entry.
pub fn revs_list(v: &serde_json::Value) -> (r: Vec<String>)
    ensures
        r@.map_values(|s: String| s@) == listed_revs(*v),
{
    let items = match json_as_array(v) {
        Some(a) => a,
        None => {
            let r: Vec<String> = Vec::new();
            proof {
                assert(r@.map_values(|s: String| s@) =~= Seq::<Seq<char>>::empty());
            }
            return r;
        },
    };
    let mut out: Vec<String> = Vec::new();
    let mut i: usize = 0;
    while i < items.len()
        invariant
            i <= items@.len(),
            out@.map_values(|s: String| s@) == strings_upto(items@, i as int),
        decreases items.len() - i,
    {
        let ghost before = out@;
        match json_as_str(&items[i]) {
            Some(t) => {
                out.push(t.to_owned());
                proof {
                    assert(out@.map_values(|s: String| s@) =~= before.map_values(|s: String| s@).push(t@));
                }
            },
            None => {},
        }
        i = i + 1;
    }
    out
}

/// What a `_bulk_get` request names: its string `id` (none without one)
/// and its string `rev`, if any.
pub fn bulk_get_target(req: &serde_json::Value) -> (r: Option<(String, Option<String>)>)
    ensures
        match r {
            Some((id, rev)) => member_text(*req, "id"@) == Some(id@) && match rev {
                Some(v) => member_text(*req, "rev"@) == Some(v@),
                None => member_text(*req, "rev"@) is None,
            },
            None => member_text(*req, "id"@) is None,
        },
{
    proof {
        reveal_strlit("id");
        reveal_strlit("rev");
    }
    match text_member(req, "id") {
        Some(id) => Some((id, text_member(req, "rev"))),
        None => None,
    }
}

/// The items of a request's array member `key` (`docs` of `_bulk_docs`
/// and `_bulk_get`); `None` where it is missing or not an array.
pub fn array_member(payload: &serde_json::Value, key: &str) -> (r: Option<Vec<serde_json::Value>>)
    ensures
        match r {
            Some(v) => json_member(*payload, key@) matches Some(a) && json_items(a) == Some(v@),
            None => !(json_member(*payload, key@) matches Some(a) && json_items(a) is Some),
        },
{
    match json_get(payload, key) {
        Some(a) => match json_as_array(a) {
            Some(items) => {
                let mut out: Vec<serde_json::Value> = Vec::new();
                let mut i: usize = 0;
                while i < items.len()
                    invariant
                        i <= items@.len(),
                        out@ == items@.take(i as int),
                    decreases items.len() - i,
                {
                    out.push(items[i].clone());
                    proof {
                        assert(items@.take(i + 1) =~= items@.take(i as int).push(items@[i as int]));
                    }
                    i = i + 1;
                }
                proof {
                    assert(items@.take(items@.len() as int) =~= items@);
                }
                Some(out)
            },
            None => None,
        },
        None => None,
    }
}

/// Whether a `_bulk_docs` request makes new edits: its boolean
/// `new_edits`, `true` where it has none.
pub fn bulk_new_edits(payload: &serde_json::Value) -> (r: bool)
    ensures
        r == match json_member(*payload, "new_edits"@) {
            Some(x) => match json_bool(x) {
                Some(b) => b,
                None => true,
            },
            None => true,
        },
{
    proof {
        reveal_strlit("new_edits");
    }
    match json_get(payload, "new_edits") {
        Some(x) => match json_as_bool(x) {
            Some(b) => b,
            None => true,
        },
        None => true,
    }
}

} // verus!
