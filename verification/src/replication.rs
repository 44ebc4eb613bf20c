//! Replication pushes (`new_edits:false`): the revision chain a pushed
//! document dictates through `_rev` and `_revisions`.

use vstd::prelude::*;
use crate::json::{json_as_array, json_as_str, json_as_u64, json_get, json_items, json_is_object, json_member, json_object_check, json_string, json_u64};
use crate::text::{decimal_string, decimal_text, join_with};
use crate::revtree::{
    insert_chain, lemma_insert_chain_all_present, lemma_insert_chain_keeps_and_stores, texts, RevId, RevNodeView,
    RevTree,
};
use crate::api::{without_members, WriteError};
use crate::json::{json_empty_object, json_remove};

verus! {

/// The ids that `_revisions` (`{"start": N, "ids": [hash_N, hash_N-1, ...]}`)
/// names, newest first: the `i`-th hash, where it is a string and `i` is at
/// most `N`, gives `"{N - i}-{hash}"`.
pub open spec fn chain_from(start: u64, ids: Seq<serde_json::Value>, n: int) -> Seq<Seq<char>>
    decreases n,
{
    if n <= 0 {
        Seq::empty()
    } else {
        let prev = chain_from(start, ids, n - 1);
        let i = n - 1;
        match json_string(ids[i]) {
            Some(h) => if i <= start {
                prev.push(decimal_text((start - i) as nat).push('-') + h)
            } else {
                prev
            },
            None => prev,
        }
    }
}

/// The chain that a pushed document dictates: none without a string
/// `_rev`; the `_rev` alone where `_revisions` is not an object; else the
/// ids of `_revisions`, or none where its `start` is not a `u64` or its
/// `ids` not an array.
pub open spec fn revision_chain_spec(doc: serde_json::Value) -> Option<Seq<Seq<char>>> {
    match json_member(doc, "_rev"@) {
        None => None,
        Some(rv) => match json_string(rv) {
            None => None,
            Some(rev) => {
                let revisions = json_member(doc, "_revisions"@);
                if revisions is Some && json_is_object(revisions->0) {
                    let r = revisions->0;
                    match (json_member(r, "start"@), json_member(r, "ids"@)) {
                        (Some(s), Some(ids)) => match (json_u64(s), json_items(ids)) {
                            (Some(start), Some(items)) => Some(chain_from(start, items, items.len() as int)),
                            _ => None,
                        },
                        _ => None,
                    }
                } else {
                    Some(seq![rev])
                }
            },
        },
    }
}

/// Where every hash of `_revisions` is a string and none would get a
/// generation below 0, the chain holds every one of them, in order: the
/// `i`-th is `"{start - i}-{hash_i}"`.
pub proof fn lemma_chain_from_all_strings(start: u64, ids: Seq<serde_json::Value>, n: int)
    requires
        0 <= n <= ids.len(),
        n - 1 <= start,
        forall|i: int| 0 <= i < n ==> (#[trigger] json_string(ids[i])) is Some,
    ensures
        chain_from(start, ids, n).len() == n,
        forall|i: int| 0 <= i < n ==> #[trigger] chain_from(start, ids, n)[i]
            == decimal_text((start - i) as nat).push('-') + json_string(ids[i])->0,
    decreases n,
{
    if n > 0 {
        lemma_chain_from_all_strings(start, ids, n - 1);
        assert(json_string(ids[n - 1]) is Some);
    }
}

/// A pushed document whose `_revisions` names `start` and an array of
/// string hashes (no more than `start + 1` of them) dictates the chain of
/// all those hashes, newest first, the `i`-th with generation `start - i`.
pub proof fn lemma_revision_chain_of_revisions(
    doc: serde_json::Value,
    rev: serde_json::Value,
    revisions: serde_json::Value,
    start_value: serde_json::Value,
    ids_value: serde_json::Value,
    start: u64,
    items: Seq<serde_json::Value>,
)
    requires
        json_member(doc, "_rev"@) == Some(rev),
        json_string(rev) is Some,
        json_member(doc, "_revisions"@) == Some(revisions),
        json_is_object(revisions),
        json_member(revisions, "start"@) == Some(start_value),
        json_u64(start_value) == Some(start),
        json_member(revisions, "ids"@) == Some(ids_value),
        json_items(ids_value) == Some(items),
        items.len() <= start + 1,
        forall|i: int| 0 <= i < items.len() ==> (#[trigger] json_string(items[i])) is Some,
    ensures
        revision_chain_spec(doc) matches Some(c) && c.len() == items.len() && forall|i: int| 0 <= i < items.len()
            ==> #[trigger] c[i] == decimal_text((start - i) as nat).push('-') + json_string(items[i])->0,
{
    lemma_chain_from_all_strings(start, items, items.len() as int);
}

/// Resolves a pushed document's `_rev` and `_revisions` into the
/// newest-first chain that `RevTree::insert_revision_chain` stores.
pub fn revision_chain(doc: &serde_json::Value) -> (r: Option<Vec<String>>)
    ensures
        match r {
            Some(v) => revision_chain_spec(*doc) == Some(v@.map_values(|s: String| s@)),
            None => revision_chain_spec(*doc) is None,
        },
{
    proof {
        reveal_strlit("_rev");
        reveal_strlit("_revisions");
        reveal_strlit("start");
        reveal_strlit("ids");
    }
    let rev = match json_get(doc, "_rev") {
        Some(v) => match json_as_str(v) {
            Some(s) => s,
            None => {
                return None;
            },
        },
        None => {
            return None;
        },
    };
    let revisions = match json_get(doc, "_revisions") {
        Some(r) => if json_object_check(r) {
            Some(r)
        } else {
            None
        },
        None => None,
    };
    match revisions {
        None => {
            let mut v: Vec<String> = Vec::new();
            v.push(rev.to_owned());
            proof {
                assert(v@.map_values(|s: String| s@) =~= seq![rev@]);
            }
            Some(v)
        },
        Some(r) => {
            let start = match json_get(r, "start") {
                Some(s) => match json_as_u64(s) {
                    Some(n) => n,
                    None => {
                        return None;
                    },
                },
                None => {
                    return None;
                },
            };
            let ids = match json_get(r, "ids") {
                Some(i) => match json_as_array(i) {
                    Some(a) => a,
                    None => {
                        return None;
                    },
                },
                None => {
                    return None;
                },
            };
            let mut out: Vec<String> = Vec::new();
            let mut i: usize = 0;
            while i < ids.len()
                invariant
                    i <= ids@.len(),
                    out@.map_values(|s: String| s@) == chain_from(start, ids@, i as int),
                decreases ids.len() - i,
            {
                let ghost before = out@;
                match json_as_str(&ids[i]) {
                    Some(h) => {
                        if (i as u64) <= start {
                            let generation = start - i as u64;
                            out.push(join_with(decimal_string(generation).as_str(), '-', h));
                            proof {
                                assert(out@.map_values(|s: String| s@) =~= before.map_values(|s: String| s@).push(
                                    decimal_text(generation as nat).push('-') + h@,
                                ));
                            }
                        }
                    },
                    None => {},
                }
                i = i + 1;
            }
            Some(out)
        },
    }
}

} // verus!

verus! {

/// Whether a pushed document is a tombstone: its `_deleted` is `true`.
pub open spec fn pushed_deleted_spec(doc: serde_json::Value) -> bool {
    match json_member(doc, "_deleted"@) {
        Some(d) => crate::json::json_bool(d) == Some(true),
        None => false,
    }
}

/// What a replicated document asks to store: its revision chain, newest
/// first and never empty, and whether its newest revision is a deletion;
/// `MissingRev` where it names no chain or an empty one (a `_revisions`
/// whose `ids` hold no usable hash).
pub fn replicated_write(doc: &serde_json::Value) -> (r: Result<(Vec<RevId>, bool), WriteError>)
    ensures
        match revision_chain_spec(*doc) {
            None => r == Err::<(Vec<RevId>, bool), WriteError>(WriteError::MissingRev),
            Some(c) => if c.len() == 0 {
                r == Err::<(Vec<RevId>, bool), WriteError>(WriteError::MissingRev)
            } else {
                r matches Ok((v, d)) && v.len() > 0 && v@.map_values(|s: String| s@) == c && d == pushed_deleted_spec(*doc)
            },
        },
{
    let chain = match revision_chain(doc) {
        Some(c) => c,
        None => {
            return Err(WriteError::MissingRev);
        },
    };
    if chain.len() == 0 {
        return Err(WriteError::MissingRev);
    }
    proof {
        reveal_strlit("_deleted");
    }
    let deleted = match json_get(doc, "_deleted") {
        Some(d) => match crate::json::json_as_bool(d) {
            Some(b) => b,
            None => false,
        },
        None => false,
    };
    Ok((chain, deleted))
}

/// The body a replicated document stores: the document without its
/// `_id`, `_rev`, `_revisions` and `_deleted`.
pub fn replicated_body(doc: &serde_json::Value) -> (r: serde_json::Value)
    ensures
        without_members(r, *doc, seq!["_id"@, "_rev"@, "_revisions"@, "_deleted"@]),
{
    proof {
        reveal_strlit("_id");
        reveal_strlit("_rev");
        reveal_strlit("_revisions");
        reveal_strlit("_deleted");
    }
    let ghost keys = seq!["_id"@, "_rev"@, "_revisions"@, "_deleted"@];
    let mut body = doc.clone();
    json_remove(&mut body, "_id");
    let ghost b1 = body;
    json_remove(&mut body, "_rev");
    let ghost b2 = body;
    json_remove(&mut body, "_revisions");
    let ghost b3 = body;
    json_remove(&mut body, "_deleted");
    proof {
        if json_is_object(*doc) {
            assert forall|k: Seq<char>| #[trigger] json_member(body, k) == if keys.contains(k) {
                None
            } else {
                json_member(*doc, k)
            } by {
                if k == "_id"@ {
                    assert(keys[0] == k);
                    assert(json_member(b1, k) is None);
                    assert(k != "_rev"@) by { assert(k[1] != "_rev"@[1]); }
                    assert(k != "_revisions"@) by { assert(k[1] != "_revisions"@[1]); }
                    assert(k != "_deleted"@) by { assert(k[1] != "_deleted"@[1]); }
                } else if k == "_rev"@ {
                    assert(keys[1] == k);
                    assert(k != "_revisions"@) by { assert(k.len() != "_revisions"@.len()); }
                    assert(k != "_deleted"@) by { assert(k[1] != "_deleted"@[1]); }
                } else if k == "_revisions"@ {
                    assert(keys[2] == k);
                    assert(k != "_deleted"@) by { assert(k[1] != "_deleted"@[1]); }
                } else if k == "_deleted"@ {
                    assert(keys[3] == k);
                } else {
                    assert(!keys.contains(k)) by {
                        if keys.contains(k) {
                            let j = choose|j: int| 0 <= j < keys.len() && keys[j] == k;
                        }
                    }
                }
            }
        }
    }
    body
}

/// The revisions of a stored tree, or none where the document has none.
pub open spec fn tree_view(t: Option<RevTree>) -> Map<Seq<char>, RevNodeView> {
    match t {
        Some(t) => t@,
        None => Map::empty(),
    }
}

/// One replicated write to a document: the document's stored tree (if
/// any) with the pushed chain stored into it, the newest revision getting
/// `deleted` and `body`, new ancestors the empty object.
pub fn apply_replicated(tree: Option<RevTree>, chain: &[RevId], deleted: bool, body: serde_json::Value) -> (r: RevTree)
    requires
        tree matches Some(t) ==> t.wf(),
    ensures
        r.wf(),
        exists|filler: serde_json::Value|
            json_empty_object(filler) && r@ == insert_chain(tree_view(tree), texts(chain@), deleted, body, filler),
{
    let mut t = match tree {
        Some(t) => t,
        None => RevTree::new(),
    };
    t.insert_revision_chain(chain, deleted, body);
    t
}

/// A replicated write as the store sees it: document id, revision chain
/// (newest first), the newest revision's deletion flag and body, and the
/// body that new ancestors get.
pub type ChainWrite = (Seq<char>, Seq<Seq<char>>, bool, serde_json::Value, serde_json::Value);

/// The revisions stored for document `id`; none where it was never written.
pub open spec fn stored_tree(store: Map<Seq<char>, Map<Seq<char>, RevNodeView>>, id: Seq<char>) -> Map<Seq<char>, RevNodeView> {
    if store.contains_key(id) {
        store[id]
    } else {
        Map::empty()
    }
}

/// The store after the first `n` writes of a `new_edits:false` batch, each
/// as `apply_replicated` makes it, in order.
pub open spec fn apply_writes(store: Map<Seq<char>, Map<Seq<char>, RevNodeView>>, ws: Seq<ChainWrite>, n: int) -> Map<Seq<char>, Map<Seq<char>, RevNodeView>>
    decreases n,
{
    if n <= 0 {
        store
    } else {
        let s = apply_writes(store, ws, n - 1);
        let w = ws[n - 1];
        s.insert(w.0, insert_chain(stored_tree(s, w.0), w.1, w.2, w.3, w.4))
    }
}

/// Write `w`'s document is stored, with every revision of its chain.
pub open spec fn chain_held(store: Map<Seq<char>, Map<Seq<char>, RevNodeView>>, w: ChainWrite) -> bool {
    store.contains_key(w.0) && forall|j: int| 0 <= j < w.1.len() ==> store[w.0].contains_key(#[trigger] w.1[j])
}

/// Every write's document is stored, with every revision of its chain.
pub open spec fn holds_writes(store: Map<Seq<char>, Map<Seq<char>, RevNodeView>>, ws: Seq<ChainWrite>) -> bool {
    forall|i: int| 0 <= i < ws.len() ==> chain_held(store, #[trigger] ws[i])
}

proof fn lemma_apply_writes_holds(store: Map<Seq<char>, Map<Seq<char>, RevNodeView>>, ws: Seq<ChainWrite>, n: int)
    requires
        0 <= n <= ws.len(),
    ensures
        holds_writes(apply_writes(store, ws, n), ws.take(n)),
    decreases n,
{
    if n > 0 {
        lemma_apply_writes_holds(store, ws, n - 1);
        let s = apply_writes(store, ws, n - 1);
        let w = ws[n - 1];
        let t = stored_tree(s, w.0);
        let r = apply_writes(store, ws, n);
        lemma_insert_chain_keeps_and_stores(t, w.1, w.1.len() as int, w.2, w.3, w.4);
        let pre = ws.take(n - 1);
        let post = ws.take(n);
        assert forall|i: int| 0 <= i < post.len() implies chain_held(r, #[trigger] post[i]) by {
            if i < n - 1 {
                assert(post[i] == pre[i]);
                assert(chain_held(s, pre[i]));
                let x = pre[i];
                if x.0 == w.0 {
                    assert(t == s[w.0]);
                }
                assert forall|j: int| 0 <= j < x.1.len() implies r[x.0].contains_key(#[trigger] x.1[j]) by {
                    assert(s[x.0].contains_key(x.1[j]));
                }
            } else {
                assert(post[i] == w);
            }
        }
    }
}

proof fn lemma_apply_writes_held(store: Map<Seq<char>, Map<Seq<char>, RevNodeView>>, ws: Seq<ChainWrite>, n: int)
    requires
        0 <= n <= ws.len(),
        holds_writes(store, ws),
    ensures
        apply_writes(store, ws, n) == store,
    decreases n,
{
    if n > 0 {
        lemma_apply_writes_held(store, ws, n - 1);
        let w = ws[n - 1];
        assert(chain_held(store, ws[n - 1]));
        lemma_insert_chain_all_present(store[w.0], w.1, w.1.len() as int, w.2, w.3, w.4);
        assert(apply_writes(store, ws, n) =~= store);
    }
}

/// Replaying a `new_edits:false` batch is idempotent: pushing the same
/// documents' chains again, in the same order, leaves every stored tree as
/// the first push left it (whatever bodies and deletion flags come along
/// the second time, since no stored revision is ever rewritten).
pub proof fn lemma_replayed_batch_idempotent(
    store: Map<Seq<char>, Map<Seq<char>, RevNodeView>>,
    ws: Seq<ChainWrite>,
    ws2: Seq<ChainWrite>,
)
    requires
        ws2.len() == ws.len(),
        forall|i: int| 0 <= i < ws.len() ==> (#[trigger] ws2[i]).0 == ws[i].0 && ws2[i].1 == ws[i].1,
    ensures
        apply_writes(apply_writes(store, ws, ws.len() as int), ws2, ws2.len() as int)
            == apply_writes(store, ws, ws.len() as int),
{
    let once = apply_writes(store, ws, ws.len() as int);
    lemma_apply_writes_holds(store, ws, ws.len() as int);
    assert(ws.take(ws.len() as int) =~= ws);
    assert forall|i: int| 0 <= i < ws2.len() implies chain_held(once, #[trigger] ws2[i]) by {
        assert(ws2[i].0 == ws[i].0 && ws2[i].1 == ws[i].1);
        assert(chain_held(once, ws[i]));
    }
    lemma_apply_writes_held(once, ws2, ws2.len() as int);
}

} // verus!
