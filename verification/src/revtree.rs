//! Per-document revision tree: storage of revisions, leaves, the winning
//! revision, conflicts, `_revs_diff` and replicated revision chains.

use vstd::prelude::*;
use crate::json::{json_decoding, json_encoding, json_from_slice, json_to_vec};
use crate::storage::{StoredNode, StoredTree};
use crate::text::{chars_of, parse_u64, parse_u64_spec, same_text, text_le, text_le_exec};
use crate::text::{lemma_text_le_total, lemma_text_le_transitive, decimal_string, hex_string, decimal_text, hex_text, join_with, is_digit};

verus! {

/// A revision id, `"{generation}-{hash}"`.
pub type RevId = String;

/// One stored revision: its parent (none for a first revision), whether it
/// is a deletion tombstone, and the document body it carries.
#[derive(Debug)]
pub struct RevNode {
    pub parent: Option<RevId>,
    pub deleted: bool,
    pub body: serde_json::Value,
}

/// What a revision node is, with its text as characters.
pub struct RevNodeView {
    pub parent: Option<Seq<char>>,
    pub deleted: bool,
    pub body: serde_json::Value,
}

pub open spec fn option_text(o: Option<String>) -> Option<Seq<char>> {
    match o {
        Some(s) => Some(s@),
        None => None,
    }
}

impl View for RevNode {
    type V = RevNodeView;

    open spec fn view(&self) -> RevNodeView {
        RevNodeView { parent: option_text(self.parent), deleted: self.deleted, body: self.body }
    }
}

/// The map that a list of `(revision id, node)` entries denotes.
pub open spec fn map_of_entries(es: Seq<(Seq<char>, RevNodeView)>) -> Map<Seq<char>, RevNodeView> {
    Map::new(
        |k: Seq<char>| exists|i: int| 0 <= i < es.len() && #[trigger] es[i].0 == k,
        |k: Seq<char>| es[choose|i: int| 0 <= i < es.len() && #[trigger] es[i].0 == k].1,
    )
}

/// No revision id occurs twice among the entries.
pub open spec fn keys_distinct(es: Seq<(Seq<char>, RevNodeView)>) -> bool {
    forall|i: int, j: int|
        0 <= i < es.len() && 0 <= j < es.len() && i != j ==> #[trigger] es[i].0 != #[trigger] es[j].0
}

proof fn lemma_entries_at(es: Seq<(Seq<char>, RevNodeView)>, i: int)
    requires
        keys_distinct(es),
        0 <= i < es.len(),
    ensures
        map_of_entries(es).dom().contains(es[i].0),
        map_of_entries(es)[es[i].0] == es[i].1,
{
    let k = es[i].0;
    assert(exists|j: int| 0 <= j < es.len() && #[trigger] es[j].0 == k) by {
        assert(es[i].0 == k);
    }
    let j = choose|j: int| 0 <= j < es.len() && #[trigger] es[j].0 == k;
    assert(j == i);
}

proof fn lemma_entries_dom(es: Seq<(Seq<char>, RevNodeView)>, k: Seq<char>)
    requires
        keys_distinct(es),
        map_of_entries(es).dom().contains(k),
    ensures
        exists|i: int| 0 <= i < es.len() && es[i].0 == k && map_of_entries(es)[k] == es[i].1,
{
    let i = choose|i: int| 0 <= i < es.len() && #[trigger] es[i].0 == k;
    lemma_entries_at(es, i);
}

proof fn lemma_entries_push(es: Seq<(Seq<char>, RevNodeView)>, k: Seq<char>, v: RevNodeView)
    requires
        keys_distinct(es),
        !map_of_entries(es).dom().contains(k),
    ensures
        keys_distinct(es.push((k, v))),
        map_of_entries(es.push((k, v))) == map_of_entries(es).insert(k, v),
{
    let es2 = es.push((k, v));
    assert forall|i: int| 0 <= i < es.len() implies #[trigger] es[i].0 != k by {
        if es[i].0 == k {
            lemma_entries_at(es, i);
        }
    }
    assert(keys_distinct(es2)) by {
        assert forall|i: int, j: int|
            0 <= i < es2.len() && 0 <= j < es2.len() && i != j implies #[trigger] es2[i].0
            != #[trigger] es2[j].0 by {
            if i < es.len() && j < es.len() {
                assert(es2[i] == es[i] && es2[j] == es[j]);
            } else if i < es.len() {
                assert(es2[i] == es[i]);
            } else {
                assert(es2[j] == es[j]);
            }
        }
    }
    let m1 = map_of_entries(es2);
    let m2 = map_of_entries(es).insert(k, v);
    assert forall|key: Seq<char>| #[trigger] m1.dom().contains(key) <==> m2.dom().contains(key) by {
        if m1.dom().contains(key) {
            let i = choose|i: int| 0 <= i < es2.len() && #[trigger] es2[i].0 == key;
            if i < es.len() {
                assert(es2[i] == es[i]);
                lemma_entries_at(es, i);
            }
        }
        if map_of_entries(es).dom().contains(key) {
            let i = choose|i: int| 0 <= i < es.len() && #[trigger] es[i].0 == key;
            assert(es2[i] == es[i]);
        }
        if key == k {
            assert(es2[es.len() as int].0 == k);
        }
    }
    assert forall|key: Seq<char>| #[trigger] m1.dom().contains(key) implies m1[key] == m2[key] by {
        let i = choose|i: int| 0 <= i < es2.len() && #[trigger] es2[i].0 == key;
        lemma_entries_at(es2, i);
        if i < es.len() {
            assert(es2[i] == es[i]);
            lemma_entries_at(es, i);
        }
    }
    assert(m1 =~= m2);
}

proof fn lemma_entries_update(es: Seq<(Seq<char>, RevNodeView)>, i: int, v: RevNodeView)
    requires
        keys_distinct(es),
        0 <= i < es.len(),
    ensures
        keys_distinct(es.update(i, (es[i].0, v))),
        map_of_entries(es.update(i, (es[i].0, v))) == map_of_entries(es).insert(es[i].0, v),
{
    let k = es[i].0;
    let es2 = es.update(i, (k, v));
    assert(keys_distinct(es2)) by {
        assert forall|a: int, b: int|
            0 <= a < es2.len() && 0 <= b < es2.len() && a != b implies #[trigger] es2[a].0
            != #[trigger] es2[b].0 by {
            assert(es2[a].0 == es[a].0);
            assert(es2[b].0 == es[b].0);
        }
    }
    let m1 = map_of_entries(es2);
    let m2 = map_of_entries(es).insert(k, v);
    assert forall|key: Seq<char>| #[trigger] m1.dom().contains(key) <==> m2.dom().contains(key) by {
        if m1.dom().contains(key) {
            let j = choose|j: int| 0 <= j < es2.len() && #[trigger] es2[j].0 == key;
            assert(es[j].0 == key);
            lemma_entries_at(es, j);
        }
        if map_of_entries(es).dom().contains(key) {
            let j = choose|j: int| 0 <= j < es.len() && #[trigger] es[j].0 == key;
            assert(es2[j].0 == key);
        }
        if key == k {
            assert(es2[i].0 == k);
        }
    }
    assert forall|key: Seq<char>| #[trigger] m1.dom().contains(key) implies m1[key] == m2[key] by {
        let j = choose|j: int| 0 <= j < es2.len() && #[trigger] es2[j].0 == key;
        lemma_entries_at(es2, j);
        if j != i {
            assert(es2[j] == es[j]);
            lemma_entries_at(es, j);
        }
    }
    assert(m1 =~= m2);
}

/// A document's revision tree: every stored revision by id. Each revision
/// id is stored once (the map's keys).
#[derive(Debug)]
pub struct RevTree {
    nodes: Vec<(String, RevNode)>,
}

pub open spec fn entry_view(e: (String, RevNode)) -> (Seq<char>, RevNodeView) {
    (e.0@, e.1@)
}

impl View for RevTree {
    type V = Map<Seq<char>, RevNodeView>;

    closed spec fn view(&self) -> Map<Seq<char>, RevNodeView> {
        map_of_entries(self.entries())
    }
}

impl RevTree {
    closed spec fn entries(&self) -> Seq<(Seq<char>, RevNodeView)> {
        self.nodes@.map_values(|e: (String, RevNode)| entry_view(e))
    }

    /// The tree's internal invariant.
    pub closed spec fn wf(&self) -> bool {
        keys_distinct(self.entries())
    }

    /// An empty tree.
    pub fn new() -> (t: Self)
        ensures
            t.wf(),
            t@ == Map::<Seq<char>, RevNodeView>::empty(),
    {
        let t = RevTree { nodes: Vec::new() };
        assert(t.entries() =~= Seq::<(Seq<char>, RevNodeView)>::empty());
        assert(t@ =~= Map::<Seq<char>, RevNodeView>::empty());
        t
    }

    /// Position of revision `rev` among the entries, if stored.
    fn position(&self, rev: &str) -> (r: Option<usize>)
        requires
            self.wf(),
        ensures
            match r {
                Some(i) => i < self.nodes@.len() && self.nodes@[i as int].0@ == rev@,
                None => !self@.contains_key(rev@),
            },
    {
        let mut i: usize = 0;
        while i < self.nodes.len()
            invariant
                i <= self.nodes@.len(),
                forall|j: int| 0 <= j < i ==> self.nodes@[j].0@ != rev@,
            decreases self.nodes.len() - i,
        {
            if same_text(self.nodes[i].0.as_str(), rev) {
                return Some(i);
            }
            i = i + 1;
        }
        proof {
            if self@.contains_key(rev@) {
                lemma_entries_dom(self.entries(), rev@);
                let j = choose|j: int|
                    0 <= j < self.entries().len() && self.entries()[j].0 == rev@;
                assert(self.entries()[j] == entry_view(self.nodes@[j]));
            }
        }
        None
    }

    proof fn lemma_at(&self, i: int)
        requires
            self.wf(),
            0 <= i < self.nodes@.len(),
        ensures
            self@.contains_key(self.nodes@[i].0@),
            self@[self.nodes@[i].0@] == self.nodes@[i].1@,
    {
        assert(self.entries()[i] == entry_view(self.nodes@[i]));
        lemma_entries_at(self.entries(), i);
    }

    /// Whether revision `rev` is stored.
    pub fn contains_key(&self, rev: &str) -> (r: bool)
        requires
            self.wf(),
        ensures
            r == self@.contains_key(rev@),
    {
        match self.position(rev) {
            Some(i) => {
                proof {
                    self.lemma_at(i as int);
                }
                true
            },
            None => false,
        }
    }

    /// The stored node of revision `rev`.
    pub fn get(&self, rev: &str) -> (r: Option<&RevNode>)
        requires
            self.wf(),
        ensures
            match r {
                Some(n) => self@.contains_key(rev@) && n@ == self@[rev@],
                None => !self@.contains_key(rev@),
            },
    {
        match self.position(rev) {
            Some(i) => {
                proof {
                    self.lemma_at(i as int);
                }
                Some(&self.nodes[i].1)
            },
            None => None,
        }
    }

    /// Stores `node` under `rev`, replacing what was stored there.
    pub fn insert_node(&mut self, rev: String, node: RevNode)
        requires
            old(self).wf(),
        ensures
            final(self).wf(),
            final(self)@ == old(self)@.insert(rev@, node@),
    {
        let ghost k = rev@;
        let ghost v = node@;
        match self.position(rev.as_str()) {
            Some(i) => {
                proof {
                    lemma_entries_update(self.entries(), i as int, v);
                }
                self.nodes.set(i, (rev, node));
                proof {
                    assert(self.entries() =~= old(self).entries().update(i as int, (k, v)));
                }
            },
            None => {
                proof {
                    lemma_entries_push(self.entries(), k, v);
                }
                self.nodes.push((rev, node));
                proof {
                    assert(self.entries() =~= old(self).entries().push((k, v)));
                }
            },
        }
    }
}

} // verus!

verus! {

/// Position of the first `'-'` in `s` at or after `i`.
pub open spec fn dash_from(s: Seq<char>, i: int) -> Option<int>
    decreases s.len() - i,
{
    if i < 0 || i >= s.len() {
        None
    } else if s[i] == '-' {
        Some(i)
    } else {
        dash_from(s, i + 1)
    }
}

/// A revision id `"{generation}-{hash}"` split at its first `'-'`: the
/// generation read as a `u64` (0 where it does not read as one) and the
/// text after the dash. An id without a dash has generation 0 and is all
/// hash.
pub open spec fn split_rev_spec(s: Seq<char>) -> (u64, Seq<char>) {
    match dash_from(s, 0) {
        Some(i) => (
            match parse_u64_spec(s.take(i)) {
                Some(g) => g,
                None => 0,
            },
            s.skip(i + 1),
        ),
        None => (0, s),
    }
}

/// Splits a revision id into its generation and its hash.
pub fn split_rev(rev: &str) -> (r: (u64, &str))
    ensures
        r.0 == split_rev_spec(rev@).0,
        r.1@ == split_rev_spec(rev@).1,
{
    let cs = chars_of(rev);
    let mut i: usize = 0;
    while i < cs.len()
        invariant
            i <= cs.len(),
            cs@ == rev@,
            dash_from(rev@, 0) == dash_from(rev@, i as int),
        decreases cs.len() - i,
    {
        if cs[i] == '-' {
            let generation = match parse_u64(rev.substring_char(0, i)) {
                Some(g) => g,
                None => 0,
            };
            return (generation, rev.substring_char(i + 1, cs.len()));
        }
        i = i + 1;
    }
    (0, rev)
}

/// `a` sorts at or below `b` for winner-picking: by generation, compared
/// as numbers, then by hash in `str` order.
pub open spec fn rev_key_le(a: Seq<char>, b: Seq<char>) -> bool {
    let (ga, ha) = split_rev_spec(a);
    let (gb, hb) = split_rev_spec(b);
    ga < gb || (ga == gb && text_le(ha, hb))
}

pub proof fn lemma_rev_key_le_total(a: Seq<char>, b: Seq<char>)
    ensures
        rev_key_le(a, b) || rev_key_le(b, a),
{
    lemma_text_le_total(split_rev_spec(a).1, split_rev_spec(b).1);
}

pub proof fn lemma_rev_key_le_transitive(a: Seq<char>, b: Seq<char>, c: Seq<char>)
    requires
        rev_key_le(a, b),
        rev_key_le(b, c),
    ensures
        rev_key_le(a, c),
{
    if split_rev_spec(a).0 == split_rev_spec(b).0 && split_rev_spec(b).0 == split_rev_spec(c).0 {
        lemma_text_le_transitive(split_rev_spec(a).1, split_rev_spec(b).1, split_rev_spec(c).1);
    }
}

/// `rev_key_le` on executable ids.
pub fn rev_key_le_exec(a: &str, b: &str) -> (r: bool)
    ensures
        r == rev_key_le(a@, b@),
{
    let (ga, ha) = split_rev(a);
    let (gb, hb) = split_rev(b);
    if ga < gb {
        true
    } else if ga > gb {
        false
    } else {
        text_le_exec(&chars_of(ha), &chars_of(hb))
    }
}

/// Some stored revision names `k` as its parent.
pub open spec fn has_child(m: Map<Seq<char>, RevNodeView>, k: Seq<char>) -> bool {
    exists|c: Seq<char>| #[trigger] m.contains_key(c) && m[c].parent == Some(k)
}

/// A stored revision that no stored revision names as its parent.
pub open spec fn is_leaf(m: Map<Seq<char>, RevNodeView>, k: Seq<char>) -> bool {
    m.contains_key(k) && !has_child(m, k)
}

/// A leaf that is not a deletion tombstone.
pub open spec fn is_live_leaf(m: Map<Seq<char>, RevNodeView>, k: Seq<char>) -> bool {
    is_leaf(m, k) && !m[k].deleted
}

pub open spec fn has_leaf(m: Map<Seq<char>, RevNodeView>) -> bool {
    exists|k: Seq<char>| is_leaf(m, k)
}

pub open spec fn has_live_leaf(m: Map<Seq<char>, RevNodeView>) -> bool {
    exists|k: Seq<char>| is_live_leaf(m, k)
}

/// The leaves the winner is picked from: the non-deleted leaves, or every
/// leaf where all leaves are deleted.
pub open spec fn is_candidate(m: Map<Seq<char>, RevNodeView>, k: Seq<char>) -> bool {
    if has_live_leaf(m) {
        is_live_leaf(m, k)
    } else {
        is_leaf(m, k)
    }
}

/// `w` is a candidate that no candidate sorts above.
pub open spec fn is_winner(m: Map<Seq<char>, RevNodeView>, w: Seq<char>) -> bool {
    is_candidate(m, w) && forall|c: Seq<char>| #[trigger] is_candidate(m, c) ==> rev_key_le(c, w)
}

/// The winner has the highest generation among the candidates, and among
/// those of its generation the highest hash in `str` order: where a
/// candidate's hash first differs from the winner's, at position `i`, the
/// winner's character there is the greater.
pub proof fn lemma_winner_highest_generation_then_hash(m: Map<Seq<char>, RevNodeView>, w: Seq<char>, c: Seq<char>, i: int)
    requires
        is_winner(m, w),
        is_candidate(m, c),
    ensures
        split_rev_spec(c).0 <= split_rev_spec(w).0,
        ({
            let hw = split_rev_spec(w).1;
            let hc = split_rev_spec(c).1;
            (split_rev_spec(c).0 == split_rev_spec(w).0 && 0 <= i < hw.len() && i < hc.len()
                && (forall|k: int| 0 <= k < i ==> hw[k] == hc[k]) && hw[i] != hc[i])
                ==> (hc[i] as int) < (hw[i] as int)
        }),
{
    let hw = split_rev_spec(w).1;
    let hc = split_rev_spec(c).1;
    assert(rev_key_le(c, w));
    if split_rev_spec(c).0 == split_rev_spec(w).0 && 0 <= i < hw.len() && i < hc.len()
        && (forall|k: int| 0 <= k < i ==> hw[k] == hc[k]) && hw[i] != hc[i] {
        crate::text::lemma_text_le_first_difference(hc, hw, i);
    }
}

/// Among the entries before position `n`, the position of the candidate
/// that `winner` keeps: the last one that sorts at or above all before it.
spec fn best_upto(es: Seq<(Seq<char>, RevNodeView)>, m: Map<Seq<char>, RevNodeView>, n: int) -> Option<int>
    decreases n,
{
    if n <= 0 {
        None
    } else {
        let prev = best_upto(es, m, n - 1);
        let i = n - 1;
        if is_candidate(m, es[i].0) {
            match prev {
                None => Some(i),
                Some(b) => if rev_key_le(es[b].0, es[i].0) {
                    Some(i)
                } else {
                    Some(b)
                },
            }
        } else {
            prev
        }
    }
}

pub open spec fn option_ref_text(o: Option<&String>) -> Option<Seq<char>> {
    match o {
        Some(s) => Some(s@),
        None => None,
    }
}

/// The leaves that a listing admits: every leaf, or only live ones, less
/// the excluded id.
pub open spec fn keep(m: Map<Seq<char>, RevNodeView>, k: Seq<char>, live_only: bool, exclude: Option<Seq<char>>) -> bool {
    is_leaf(m, k) && (live_only ==> !m[k].deleted) && exclude != Some(k)
}

impl RevTree {
    /// The number of stored revisions.
    pub fn len(&self) -> (r: usize)
        requires
            self.wf(),
        ensures
            r == self@.len(),
    {
        proof {
            let ks = self.entries().map_values(|e: (Seq<char>, RevNodeView)| e.0);
            assert(ks.no_duplicates());
            assert(self@.dom() =~= ks.to_set()) by {
                assert forall|k: Seq<char>| self@.dom().contains(k) implies ks.to_set().contains(k) by {
                    lemma_entries_dom(self.entries(), k);
                    let i = choose|i: int| 0 <= i < self.entries().len() && self.entries()[i].0 == k;
                    assert(ks[i] == k);
                }
                assert forall|k: Seq<char>| ks.to_set().contains(k) implies self@.dom().contains(k) by {
                    let i = choose|i: int| 0 <= i < ks.len() && ks[i] == k;
                    lemma_entries_at(self.entries(), i);
                }
            }
            ks.unique_seq_to_set();
        }
        self.nodes.len()
    }

    proof fn lemma_child_at(&self, j: int, k: Seq<char>)
        requires
            self.wf(),
            0 <= j < self.nodes@.len(),
            self.nodes@[j].1@.parent == Some(k),
        ensures
            has_child(self@, k),
    {
        self.lemma_at(j);
        let c = self.nodes@[j].0@;
        assert(self@.contains_key(c) && self@[c].parent == Some(k));
    }

    proof fn lemma_key_index(&self, k: Seq<char>) -> (j: int)
        requires
            self.wf(),
            self@.contains_key(k),
        ensures
            0 <= j < self.nodes@.len(),
            self.nodes@[j].0@ == k,
            self@[k] == self.nodes@[j].1@,
    {
        lemma_entries_dom(self.entries(), k);
        let j = choose|j: int|
            0 <= j < self.entries().len() && self.entries()[j].0 == k && self@[k]
                == self.entries()[j].1;
        assert(self.entries()[j] == entry_view(self.nodes@[j]));
        j
    }

    /// Whether the revision at position `i` is a leaf.
    fn is_leaf_at(&self, i: usize) -> (r: bool)
        requires
            self.wf(),
            i < self.nodes@.len(),
        ensures
            r == is_leaf(self@, self.nodes@[i as int].0@),
    {
        proof {
            self.lemma_at(i as int);
        }
        let ghost k = self.nodes@[i as int].0@;
        let mut j: usize = 0;
        while j < self.nodes.len()
            invariant
                self.wf(),
                i < self.nodes@.len(),
                k == self.nodes@[i as int].0@,
                j <= self.nodes@.len(),
                forall|t: int| 0 <= t < j ==> self.nodes@[t].1@.parent != Some(k),
            decreases self.nodes.len() - j,
        {
            match &self.nodes[j].1.parent {
                Some(p) => {
                    if *p == self.nodes[i].0 {
                        proof {
                            self.lemma_child_at(j as int, k);
                        }
                        return false;
                    }
                },
                None => {},
            }
            j = j + 1;
        }
        proof {
            if has_child(self@, k) {
                let c = choose|c: Seq<char>| #[trigger] self@.contains_key(c) && self@[c].parent == Some(k);
                let t = self.lemma_key_index(c);
            }
        }
        true
    }

    /// The ids of the leaves that `keep` admits, each once, in entry order.
    fn collect_leaves(&self, live_only: bool, exclude: Option<&String>) -> (r: Vec<&String>)
        requires
            self.wf(),
        ensures
            r@.map_values(|s: &String| s@).no_duplicates(),
            forall|k: Seq<char>|
                r@.map_values(|s: &String| s@).contains(k) <==> keep(
                    self@,
                    k,
                    live_only,
                    option_ref_text(exclude),
                ),
    {
        let ghost ex = option_ref_text(exclude);
        let mut r: Vec<&String> = Vec::new();
        let mut i: usize = 0;
        while i < self.nodes.len()
            invariant
                self.wf(),
                ex == option_ref_text(exclude),
                i <= self.nodes@.len(),
                r@.map_values(|s: &String| s@).no_duplicates(),
                forall|t: int|
                    #![trigger r@[t]]
                    0 <= t < r@.len() ==> exists|j: int|
                        0 <= j < i && #[trigger] self.nodes@[j].0@ == r@[t]@,
                forall|j: int|
                    0 <= j < i && keep(self@, #[trigger] self.nodes@[j].0@, live_only, ex)
                        ==> r@.map_values(|s: &String| s@).contains(self.nodes@[j].0@),
                forall|k: Seq<char>|
                    r@.map_values(|s: &String| s@).contains(k) ==> keep(self@, k, live_only, ex),
            decreases self.nodes.len() - i,
        {
            proof {
                self.lemma_at(i as int);
            }
            let admitted = self.is_leaf_at(i) && (!live_only || !self.nodes[i].1.deleted) && match exclude {
                Some(w) => self.nodes[i].0 != *w,
                None => true,
            };
            if admitted {
                let ghost old_r = r@;
                let ghost k = self.nodes@[i as int].0@;
                proof {
                    assert forall|t: int| 0 <= t < r@.len() implies r@[t]@ != k by {
                        let j = choose|j: int| 0 <= j < i && #[trigger] self.nodes@[j].0@ == r@[t]@;
                        assert(self.entries()[j] == entry_view(self.nodes@[j]));
                        assert(self.entries()[i as int] == entry_view(self.nodes@[i as int]));
                        assert(self.entries()[j].0 != self.entries()[i as int].0);
                    }
                }
                r.push(&self.nodes[i].0);
                proof {
                    let v = r@.map_values(|s: &String| s@);
                    let ov = old_r.map_values(|s: &String| s@);
                    assert(v =~= ov.push(k));
                    assert forall|t: int| #![trigger r@[t]] 0 <= t < r@.len() implies exists|j: int|
                        0 <= j < i + 1 && #[trigger] self.nodes@[j].0@ == r@[t]@ by {
                        if t < old_r.len() {
                            assert(r@[t] == old_r[t]);
                            let j = choose|j: int| 0 <= j < i && #[trigger] self.nodes@[j].0@ == old_r[t]@;
                            assert(self.nodes@[j].0@ == r@[t]@);
                        } else {
                            assert(self.nodes@[i as int].0@ == r@[t]@);
                        }
                    }
                    assert forall|a: int, b: int| 0 <= a < v.len() && 0 <= b < v.len() && a != b implies v[a] != v[b] by {
                        if a < ov.len() && b < ov.len() {
                            assert(ov.no_duplicates());
                        } else if a < ov.len() {
                            assert(v[a] == ov[a] && ov[a] == old_r[a]@);
                        } else {
                            assert(v[b] == ov[b] && ov[b] == old_r[b]@);
                        }
                    }
                    assert forall|j: int|
                        0 <= j < i + 1 && keep(self@, #[trigger] self.nodes@[j].0@, live_only, ex) implies v.contains(self.nodes@[j].0@) by {
                        if j < i {
                            assert(ov.contains(self.nodes@[j].0@));
                            let t = choose|t: int| 0 <= t < ov.len() && ov[t] == self.nodes@[j].0@;
                            assert(v[t] == ov[t]);
                        } else {
                            assert(v[ov.len() as int] == k);
                        }
                    }
                    assert forall|kk: Seq<char>| v.contains(kk) implies keep(self@, kk, live_only, ex) by {
                        let t = choose|t: int| 0 <= t < v.len() && v[t] == kk;
                        if t < ov.len() {
                            assert(v[t] == ov[t]);
                            assert(ov.contains(kk));
                        }
                    }
                }
            }
            i = i + 1;
        }
        proof {
            let v = r@.map_values(|s: &String| s@);
            assert forall|k: Seq<char>| keep(self@, k, live_only, ex) implies v.contains(k) by {
                let j = self.lemma_key_index(k);
            }
        }
        r
    }

    /// Every leaf revision id, each once.
    pub fn leaves(&self) -> (r: Vec<&RevId>)
        requires
            self.wf(),
        ensures
            r@.map_values(|s: &String| s@).no_duplicates(),
            forall|k: Seq<char>| r@.map_values(|s: &String| s@).contains(k) <==> is_leaf(self@, k),
    {
        let r = self.collect_leaves(false, None);
        proof {
            assert forall|k: Seq<char>| r@.map_values(|s: &String| s@).contains(k) <==> is_leaf(self@, k) by {
                assert(keep(self@, k, false, option_ref_text(None)) == is_leaf(self@, k));
            }
        }
        r
    }
}


proof fn lemma_rev_key_le_refl(a: Seq<char>)
    ensures
        rev_key_le(a, a),
{
    lemma_rev_key_le_total(a, a);
}

proof fn lemma_best_upto(es: Seq<(Seq<char>, RevNodeView)>, m: Map<Seq<char>, RevNodeView>, n: int)
    requires
        0 <= n <= es.len(),
    ensures
        match best_upto(es, m, n) {
            Some(b) => 0 <= b < n && is_candidate(m, es[b].0) && forall|j: int|
                0 <= j < n && is_candidate(m, #[trigger] es[j].0) ==> rev_key_le(es[j].0, es[b].0),
            None => forall|j: int| 0 <= j < n ==> !is_candidate(m, #[trigger] es[j].0),
        },
    decreases n,
{
    if n > 0 {
        lemma_best_upto(es, m, n - 1);
        let i = n - 1;
        lemma_rev_key_le_refl(es[i].0);
        if is_candidate(m, es[i].0) {
            match best_upto(es, m, n - 1) {
                Some(b) => {
                    lemma_rev_key_le_refl(es[b].0);
                    if rev_key_le(es[b].0, es[i].0) {
                        assert forall|j: int|
                            0 <= j < n && is_candidate(m, #[trigger] es[j].0) implies rev_key_le(es[j].0, es[i].0) by {
                            if j < i {
                                lemma_rev_key_le_transitive(es[j].0, es[b].0, es[i].0);
                            }
                        }
                    } else {
                        lemma_rev_key_le_total(es[b].0, es[i].0);
                    }
                },
                None => {},
            }
        }
    }
}

impl RevTree {
    /// The revision that `winner` picks: among the candidates that no
    /// candidate sorts above, the one stored last.
    pub closed spec fn winning_rev(&self) -> Option<Seq<char>> {
        match best_upto(self.entries(), self@, self.entries().len() as int) {
            Some(b) => Some(self.entries()[b].0),
            None => None,
        }
    }

    /// What is known of `winning_rev`: it is a winner, and there is none
    /// only where the tree has no leaf.
    pub proof fn lemma_winning_rev(&self)
        requires
            self.wf(),
        ensures
            match self.winning_rev() {
                Some(w) => is_winner(self@, w),
                None => !has_leaf(self@),
            },
    {
        let es = self.entries();
        let m = self@;
        lemma_best_upto(es, m, es.len() as int);
        match best_upto(es, m, es.len() as int) {
            Some(b) => {
                lemma_entries_at(es, b);
                assert forall|c: Seq<char>| #[trigger] is_candidate(m, c) implies rev_key_le(c, es[b].0) by {
                    lemma_entries_dom(es, c);
                    let j = choose|j: int| 0 <= j < es.len() && es[j].0 == c && m[c] == es[j].1;
                    assert(is_candidate(m, es[j].0));
                }
            },
            None => {
                if has_leaf(m) {
                    let k = if has_live_leaf(m) {
                        choose|k: Seq<char>| is_live_leaf(m, k)
                    } else {
                        choose|k: Seq<char>| is_leaf(m, k)
                    };
                    assert(is_candidate(m, k));
                    lemma_entries_dom(es, k);
                    let j = choose|j: int| 0 <= j < es.len() && es[j].0 == k && m[k] == es[j].1;
                    assert(!is_candidate(m, es[j].0));
                }
            },
        }
    }

    /// Whether some leaf is not deleted.
    fn has_live_leaf_exec(&self) -> (r: bool)
        requires
            self.wf(),
        ensures
            r == has_live_leaf(self@),
    {
        let mut i: usize = 0;
        while i < self.nodes.len()
            invariant
                self.wf(),
                i <= self.nodes@.len(),
                forall|j: int| 0 <= j < i ==> !is_live_leaf(self@, #[trigger] self.nodes@[j].0@),
            decreases self.nodes.len() - i,
        {
            proof {
                self.lemma_at(i as int);
            }
            if self.is_leaf_at(i) && !self.nodes[i].1.deleted {
                proof {
                    assert(is_live_leaf(self@, self.nodes@[i as int].0@));
                }
                return true;
            }
            i = i + 1;
        }
        proof {
            if has_live_leaf(self@) {
                let k = choose|k: Seq<char>| is_live_leaf(self@, k);
                let j = self.lemma_key_index(k);
                assert(!is_live_leaf(self@, self.nodes@[j].0@));
            }
        }
        false
    }

    /// The winning revision (CouchDB's rule): among the non-deleted leaves,
    /// or among all leaves where every leaf is deleted, the highest
    /// generation, ties going to the highest hash. `None` where the tree has
    /// no leaf.
    pub fn winner(&self) -> (r: Option<&RevId>)
        requires
            self.wf(),
        ensures
            option_ref_text(r) == self.winning_rev(),
            match r {
                Some(w) => is_winner(self@, w@),
                None => !has_leaf(self@),
            },
    {
        let ghost es = self.entries();
        let ghost m = self@;
        let any_live = self.has_live_leaf_exec();
        let mut best: Option<usize> = None;
        let mut i: usize = 0;
        while i < self.nodes.len()
            invariant
                self.wf(),
                es == self.entries(),
                m == self@,
                any_live == has_live_leaf(m),
                i <= self.nodes@.len(),
                match best {
                    Some(b) => best_upto(es, m, i as int) == Some(b as int),
                    None => best_upto(es, m, i as int) is None,
                },
            decreases self.nodes.len() - i,
        {
            proof {
                self.lemma_at(i as int);
                assert(es[i as int] == entry_view(self.nodes@[i as int]));
            }
            let candidate = self.is_leaf_at(i) && (!any_live || !self.nodes[i].1.deleted);
            if candidate {
                match best {
                    None => {
                        best = Some(i);
                    },
                    Some(b) => {
                        proof {
                            lemma_best_upto(es, m, i as int);
                            assert(es[b as int] == entry_view(self.nodes@[b as int]));
                        }
                        if rev_key_le_exec(self.nodes[b].0.as_str(), self.nodes[i].0.as_str()) {
                            best = Some(i);
                        }
                    },
                }
            }
            i = i + 1;
        }
        proof {
            self.lemma_winning_rev();
        }
        match best {
            Some(b) => {
                proof {
                    lemma_best_upto(es, m, es.len() as int);
                    assert(es[b as int] == entry_view(self.nodes@[b as int]));
                }
                Some(&self.nodes[b].0)
            },
            None => None,
        }
    }

    /// The conflicting revisions: every non-deleted leaf but the winner,
    /// each once.
    pub fn conflicts(&self) -> (r: Vec<RevId>)
        requires
            self.wf(),
        ensures
            r@.map_values(|s: String| s@).no_duplicates(),
            forall|k: Seq<char>|
                r@.map_values(|s: String| s@).contains(k) <==> (is_live_leaf(self@, k)
                    && self.winning_rev() != Some(k)),
    {
        let w = self.winner();
        let ids = self.collect_leaves(true, w);
        let mut r: Vec<String> = Vec::new();
        let mut i: usize = 0;
        while i < ids.len()
            invariant
                i <= ids@.len(),
                r@.map_values(|s: String| s@) == ids@.map_values(|s: &String| s@).take(i as int),
            decreases ids.len() - i,
        {
            r.push(ids[i].clone());
            proof {
                assert(ids@.map_values(|s: &String| s@).take(i + 1) =~= ids@.map_values(
                    |s: &String| s@,
                ).take(i as int).push(ids@[i as int]@));
                assert(r@.map_values(|s: String| s@) =~= ids@.map_values(|s: &String| s@).take(
                    i as int,
                ).push(ids@[i as int]@));
            }
            i = i + 1;
        }
        proof {
            let v = ids@.map_values(|s: &String| s@);
            assert(v.take(ids@.len() as int) =~= v);
            assert forall|k: Seq<char>|
                r@.map_values(|s: String| s@).contains(k) <==> (is_live_leaf(self@, k)
                    && self.winning_rev() != Some(k)) by {
                assert(keep(self@, k, true, option_ref_text(w)) == (is_live_leaf(self@, k)
                    && self.winning_rev() != Some(k)));
            }
        }
        r
    }

    /// `_revs_diff`: the requested revision ids that are not stored, in
    /// request order.
    pub fn missing<'a>(&self, requested: &'a [RevId]) -> (r: Vec<&'a RevId>)
        requires
            self.wf(),
        ensures
            r@.map_values(|s: &String| s@) == requested@.map_values(|s: String| s@).filter(
                |k: Seq<char>| !self@.contains_key(k),
            ),
    {
        let ghost req = requested@.map_values(|s: String| s@);
        let ghost pred = |k: Seq<char>| !self@.contains_key(k);
        let mut r: Vec<&'a String> = Vec::new();
        let mut i: usize = 0;
        while i < requested.len()
            invariant
                self.wf(),
                i <= requested@.len(),
                req == requested@.map_values(|s: String| s@),
                pred == (|k: Seq<char>| !self@.contains_key(k)),
                r@.map_values(|s: &String| s@) == req.take(i as int).filter(pred),
            decreases requested.len() - i,
        {
            let present = self.contains_key(requested[i].as_str());
            proof {
                assert(req.take(i + 1).drop_last() =~= req.take(i as int));
                assert(req.take(i + 1).last() == requested@[i as int]@);
            }
            let ghost before = r@;
            proof {
                let t = req.take(i + 1);
                reveal(Seq::filter);
                assert(pred(t.last()) == !present);
                assert(t.filter(pred) == if pred(t.last()) {
                    t.drop_last().filter(pred).push(t.last())
                } else {
                    t.drop_last().filter(pred)
                });
            }
            if !present {
                r.push(&requested[i]);
                proof {
                    assert(r@.map_values(|s: &String| s@) =~= before.map_values(|s: &String| s@).push(
                        requested@[i as int]@,
                    ));
                }
            }
            i = i + 1;
        }
        proof {
            assert(req.take(requested@.len() as int) =~= req);
        }
        r
    }

}


/// The node that a replicated chain (newest first) gives its `i`-th
/// revision: its parent is the next, older id; only the newest is the
/// given leaf, with the given body and deletion flag, the older ones
/// carry `filler`.
pub open spec fn chain_node(
    chain: Seq<Seq<char>>,
    i: int,
    leaf_deleted: bool,
    leaf_body: serde_json::Value,
    filler: serde_json::Value,
) -> RevNodeView {
    RevNodeView {
        parent: if i + 1 < chain.len() {
            Some(chain[i + 1])
        } else {
            None
        },
        deleted: i == 0 && leaf_deleted,
        body: if i == 0 {
            leaf_body
        } else {
            filler
        },
    }
}

/// `m` after the first `n` ids of `chain` are stored in order, each only
/// where its id is not stored yet.
pub open spec fn insert_chain_upto(
    m: Map<Seq<char>, RevNodeView>,
    chain: Seq<Seq<char>>,
    n: int,
    leaf_deleted: bool,
    leaf_body: serde_json::Value,
    filler: serde_json::Value,
) -> Map<Seq<char>, RevNodeView>
    decreases n,
{
    if n <= 0 {
        m
    } else {
        let prev = insert_chain_upto(m, chain, n - 1, leaf_deleted, leaf_body, filler);
        if prev.contains_key(chain[n - 1]) {
            prev
        } else {
            prev.insert(chain[n - 1], chain_node(chain, n - 1, leaf_deleted, leaf_body, filler))
        }
    }
}

/// `m` after a whole replicated chain is stored.
pub open spec fn insert_chain(
    m: Map<Seq<char>, RevNodeView>,
    chain: Seq<Seq<char>>,
    leaf_deleted: bool,
    leaf_body: serde_json::Value,
    filler: serde_json::Value,
) -> Map<Seq<char>, RevNodeView> {
    insert_chain_upto(m, chain, chain.len() as int, leaf_deleted, leaf_body, filler)
}

pub open spec fn texts(s: Seq<String>) -> Seq<Seq<char>> {
    s.map_values(|x: String| x@)
}

impl RevTree {
    /// `_bulk_docs` with `new_edits:false`: stores the client's revision
    /// `chain` (newest first, each id's parent the next one) as given. Ids
    /// already stored are left exactly as they are; the newest id, where
    /// new, gets `leaf_body` and the `leaf_deleted` flag; new older ids get
    /// the empty JSON object `{}` as their body.
    pub fn insert_revision_chain(&mut self, chain: &[RevId], leaf_deleted: bool, leaf_body: serde_json::Value)
        requires
            old(self).wf(),
        ensures
            final(self).wf(),
            exists|filler: serde_json::Value|
                crate::json::json_empty_object(filler)
                && final(self)@ == insert_chain(old(self)@, texts(chain@), leaf_deleted, leaf_body, filler),
    {
        let ghost ch = texts(chain@);
        let ghost lb = leaf_body;
        let filler = crate::json::empty_json_object();
        let mut leaf: Option<serde_json::Value> = Some(leaf_body);
        let mut i: usize = 0;
        while i < chain.len()
            invariant
                self.wf(),
                i <= chain@.len(),
                ch == texts(chain@),
                i == 0 ==> leaf == Some(lb),
                self@ == insert_chain_upto(old(self)@, ch, i as int, leaf_deleted, lb, filler),
            decreases chain.len() - i,
        {
            let ghost before = self@;
            proof {
                assert(ch[i as int] == chain@[i as int]@);
            }
            if !self.contains_key(chain[i].as_str()) {
                let parent = if i + 1 < chain.len() {
                    proof {
                        assert(ch[i + 1] == chain@[i + 1]@);
                    }
                    Some(chain[i + 1].clone())
                } else {
                    None
                };
                let deleted = i == 0 && leaf_deleted;
                let body = if i == 0 {
                    match leaf.take() {
                        Some(b) => b,
                        None => filler.clone(),
                    }
                } else {
                    filler.clone()
                };
                let node = RevNode { parent, deleted, body };
                proof {
                    assert(node@ == chain_node(ch, i as int, leaf_deleted, lb, filler));
                }
                self.insert_node(chain[i].clone(), node);
            }
            i = i + 1;
        }
        proof {
            assert(self@ == insert_chain(old(self)@, ch, leaf_deleted, lb, filler));
        }
    }
}


/// Storing a replicated chain never changes a revision that was already
/// stored, and leaves every id of the chain stored.
pub proof fn lemma_insert_chain_keeps_and_stores(
    m: Map<Seq<char>, RevNodeView>,
    chain: Seq<Seq<char>>,
    n: int,
    leaf_deleted: bool,
    leaf_body: serde_json::Value,
    filler: serde_json::Value,
)
    requires
        0 <= n <= chain.len(),
    ensures
        forall|k: Seq<char>| #[trigger] m.contains_key(k) ==> insert_chain_upto(m, chain, n, leaf_deleted, leaf_body, filler).contains_key(k)
            && insert_chain_upto(m, chain, n, leaf_deleted, leaf_body, filler)[k] == m[k],
        forall|i: int| 0 <= i < n ==> insert_chain_upto(m, chain, n, leaf_deleted, leaf_body, filler).contains_key(#[trigger] chain[i]),
        forall|k: Seq<char>| #[trigger] insert_chain_upto(m, chain, n, leaf_deleted, leaf_body, filler).contains_key(k)
            ==> m.contains_key(k) || exists|i: int| 0 <= i < n && chain[i] == k,
    decreases n,
{
    if n > 0 {
        lemma_insert_chain_keeps_and_stores(m, chain, n - 1, leaf_deleted, leaf_body, filler);
        let r = insert_chain_upto(m, chain, n, leaf_deleted, leaf_body, filler);
        let prev = insert_chain_upto(m, chain, n - 1, leaf_deleted, leaf_body, filler);
        assert forall|k: Seq<char>| #[trigger] r.contains_key(k) implies m.contains_key(k) || exists|i: int| 0 <= i < n && chain[i] == k by {
            if k == chain[n - 1] {
                assert(chain[n - 1] == k);
            } else {
                assert(prev.contains_key(k));
                if !m.contains_key(k) {
                    let i = choose|i: int| 0 <= i < n - 1 && chain[i] == k;
                    assert(0 <= i < n && chain[i] == k);
                }
            }
        }
    }
}

/// Storing a chain whose ids are all stored already changes nothing.
pub proof fn lemma_insert_chain_all_present(
    m: Map<Seq<char>, RevNodeView>,
    chain: Seq<Seq<char>>,
    n: int,
    leaf_deleted: bool,
    leaf_body: serde_json::Value,
    filler: serde_json::Value,
)
    requires
        0 <= n <= chain.len(),
        forall|i: int| 0 <= i < chain.len() ==> m.contains_key(#[trigger] chain[i]),
    ensures
        insert_chain_upto(m, chain, n, leaf_deleted, leaf_body, filler) == m,
    decreases n,
{
    if n > 0 {
        lemma_insert_chain_all_present(m, chain, n - 1, leaf_deleted, leaf_body, filler);
        assert(m.contains_key(chain[n - 1]));
    }
}

/// Replaying a replicated push is idempotent: storing the same chain a
/// second time leaves the tree as the first time left it.
pub proof fn lemma_insert_chain_idempotent(
    m: Map<Seq<char>, RevNodeView>,
    chain: Seq<Seq<char>>,
    leaf_deleted: bool,
    leaf_body: serde_json::Value,
    filler: serde_json::Value,
    leaf_deleted2: bool,
    leaf_body2: serde_json::Value,
    filler2: serde_json::Value,
)
    ensures
        insert_chain(insert_chain(m, chain, leaf_deleted, leaf_body, filler), chain, leaf_deleted2, leaf_body2, filler2)
            == insert_chain(m, chain, leaf_deleted, leaf_body, filler),
{
    let once = insert_chain(m, chain, leaf_deleted, leaf_body, filler);
    lemma_insert_chain_keeps_and_stores(m, chain, chain.len() as int, leaf_deleted, leaf_body, filler);
    lemma_insert_chain_all_present(once, chain, chain.len() as int, leaf_deleted2, leaf_body2, filler2);
}

/// After a replicated push, `_revs_diff` for the pushed chain reports
/// nothing missing: every pushed id is stored.
pub proof fn lemma_nothing_missing_after_push(
    m: Map<Seq<char>, RevNodeView>,
    chain: Seq<Seq<char>>,
    leaf_deleted: bool,
    leaf_body: serde_json::Value,
    filler: serde_json::Value,
)
    ensures
        chain.filter(|k: Seq<char>| !insert_chain(m, chain, leaf_deleted, leaf_body, filler).contains_key(k))
            == Seq::<Seq<char>>::empty(),
{
    let r = insert_chain(m, chain, leaf_deleted, leaf_body, filler);
    let pred = |k: Seq<char>| !r.contains_key(k);
    lemma_insert_chain_keeps_and_stores(m, chain, chain.len() as int, leaf_deleted, leaf_body, filler);
    lemma_filter_none(chain, pred);
}

proof fn lemma_filter_none(s: Seq<Seq<char>>, pred: spec_fn(Seq<char>) -> bool)
    requires
        forall|i: int| 0 <= i < s.len() ==> !pred(#[trigger] s[i]),
    ensures
        s.filter(pred) == Seq::<Seq<char>>::empty(),
    decreases s.len(),
{
    reveal(Seq::filter);
    if s.len() > 0 {
        let d = s.drop_last();
        assert forall|i: int| 0 <= i < d.len() implies !pred(#[trigger] d[i]) by {
            assert(d[i] == s[i]);
        }
        lemma_filter_none(d, pred);
        assert(!pred(s[s.len() - 1]));
    }
}

/// The winner is a deletion tombstone exactly when every leaf is: a
/// document reads as deleted only once no live branch is left.
pub proof fn lemma_winner_deleted_iff_no_live_leaf(m: Map<Seq<char>, RevNodeView>, w: Seq<char>)
    requires
        is_winner(m, w),
    ensures
        m[w].deleted <==> !has_live_leaf(m),
{
    if !has_live_leaf(m) {
        assert(!is_live_leaf(m, w));
    }
}

/// Where exactly one leaf is live, it is the winner, whatever the
/// generations and hashes of the deleted leaves.
pub proof fn lemma_single_live_leaf_wins(m: Map<Seq<char>, RevNodeView>, k: Seq<char>, w: Seq<char>)
    requires
        is_live_leaf(m, k),
        forall|c: Seq<char>| is_live_leaf(m, c) ==> c == k,
        is_winner(m, w),
    ensures
        w == k,
{
}

/// Two winners sort the same: the same generation and the same hash.
pub proof fn lemma_winner_unique_key(m: Map<Seq<char>, RevNodeView>, a: Seq<char>, b: Seq<char>)
    requires
        is_winner(m, a),
        is_winner(m, b),
    ensures
        split_rev_spec(a) == split_rev_spec(b),
{
    crate::text::lemma_text_le_antisymmetric(split_rev_spec(a).1, split_rev_spec(b).1);
}

/// A candidate of a higher generation beats any candidate of a lower one,
/// whatever their hashes: generations compare as numbers.
pub proof fn lemma_higher_generation_beats(m: Map<Seq<char>, RevNodeView>, hi: Seq<char>, lo: Seq<char>)
    requires
        is_candidate(m, hi),
        is_candidate(m, lo),
        split_rev_spec(hi).0 > split_rev_spec(lo).0,
    ensures
        !is_winner(m, lo),
{
}


impl Clone for RevNode {
    fn clone(&self) -> (r: Self)
        ensures
            r@ == self@,
    {
        RevNode { parent: self.parent.clone(), deleted: self.deleted, body: self.body.clone() }
    }
}

impl Default for RevTree {
    fn default() -> (t: Self)
        ensures
            t.wf(),
            t@ == Map::<Seq<char>, RevNodeView>::empty(),
    {
        RevTree::new()
    }
}

/// The generation of a last-write-wins edit made on top of `parent`: one
/// above the parent's (0 for an id whose generation does not read as a
/// number), or 1 with no parent.
pub open spec fn next_generation(parent: Option<Seq<char>>) -> int {
    match parent {
        Some(p) => split_rev_spec(p).0 + 1,
        None => 1,
    }
}

/// The id `"{generation}-{hash in hex}"` of such an edit.
pub open spec fn edit_rev_text(parent: Option<Seq<char>>, content_hash: u64) -> Seq<char> {
    decimal_text(next_generation(parent) as nat).push('-') + hex_text(content_hash as nat)
}

/// Whether a new edit can be numbered: the winner's generation is not the
/// largest `u64`.
pub open spec fn edit_generation_fits(parent: Option<Seq<char>>) -> bool {
    match parent {
        Some(p) => split_rev_spec(p).0 < u64::MAX,
        None => true,
    }
}

impl RevTree {
    /// A last-write-wins edit (`PUT` and `_bulk_docs` without
    /// `new_edits:false`): a new, non-deleted revision with `body` whose
    /// parent is the current winner, numbered one generation above it and
    /// hashed with `content_hash`. Returns the new revision id.
    pub fn apply_edit(&mut self, content_hash: u64, body: serde_json::Value) -> (rev: String)
        requires
            old(self).wf(),
            edit_generation_fits(old(self).winning_rev()),
        ensures
            final(self).wf(),
            rev@ == edit_rev_text(old(self).winning_rev(), content_hash),
            final(self)@ == old(self)@.insert(
                rev@,
                RevNodeView { parent: old(self).winning_rev(), deleted: false, body },
            ),
    {
        let parent: Option<String> = match self.winner() {
            Some(w) => Some(w.clone()),
            None => None,
        };
        let generation: u64 = match &parent {
            Some(p) => split_rev(p.as_str()).0 + 1,
            None => 1,
        };
        let rev = join_with(decimal_string(generation).as_str(), '-', hex_string(content_hash).as_str());
        let node = RevNode { parent, deleted: false, body };
        self.insert_node(rev.clone(), node);
        rev
    }
}


proof fn lemma_dash_at(s: Seq<char>, i: int, at: int)
    requires
        0 <= i <= at < s.len(),
        s[at] == '-',
        forall|j: int| i <= j < at ==> s[j] != '-',
    ensures
        dash_from(s, i) == Some(at),
    decreases at - i,
{
    if i < at {
        lemma_dash_at(s, i + 1, at);
    }
}

/// The id of an edit splits back into the generation it was numbered with.
pub proof fn lemma_edit_rev_generation(parent: Option<Seq<char>>, content_hash: u64)
    requires
        edit_generation_fits(parent),
    ensures
        split_rev_spec(edit_rev_text(parent, content_hash)).0 == next_generation(parent),
{
    let g = next_generation(parent);
    let d = decimal_text(g as nat);
    let s = edit_rev_text(parent, content_hash);
    crate::text::lemma_decimal_text_parses(g as nat);
    crate::text::lemma_parse_decimal_roundtrip(g as u64);
    assert forall|j: int| 0 <= j < d.len() implies s[j] != '-' by {
        assert(s[j] == d[j]);
        assert(is_digit(d[j]));
    }
    assert(s[d.len() as int] == '-');
    lemma_dash_at(s, 0, d.len() as int);
    assert(s.take(d.len() as int) =~= d);
}

/// After a last-write-wins edit whose id was neither stored nor named as a
/// parent, the edit is the document's winner, and the only one: a read
/// after a write gives what was written.
pub proof fn lemma_edit_becomes_winner(
    m: Map<Seq<char>, RevNodeView>,
    parent: Option<Seq<char>>,
    rev: Seq<char>,
    body: serde_json::Value,
)
    requires
        match parent {
            Some(w) => is_winner(m, w),
            None => !has_leaf(m),
        },
        !m.contains_key(rev),
        !has_child(m, rev),
        split_rev_spec(rev).0 == next_generation(parent),
    ensures
        is_winner(m.insert(rev, RevNodeView { parent, deleted: false, body }), rev),
        forall|c: Seq<char>|
            is_winner(m.insert(rev, RevNodeView { parent, deleted: false, body }), c) ==> c == rev,
{
    let n = m.insert(rev, RevNodeView { parent, deleted: false, body });
    // The new revision is a live leaf.
    assert(!has_child(n, rev)) by {
        if has_child(n, rev) {
            let c = choose|c: Seq<char>| #[trigger] n.contains_key(c) && n[c].parent == Some(rev);
            if c == rev {
                match parent {
                    Some(w) => {},
                    None => {},
                }
                assert(m.contains_key(rev));
            } else {
                assert(m.contains_key(c) && m[c].parent == Some(rev));
            }
        }
    }
    assert(is_live_leaf(n, rev));
    // Every other live leaf of the new tree was a live leaf before, and
    // sorts strictly below the new revision.
    assert forall|c: Seq<char>| is_live_leaf(n, c) && c != rev implies split_rev_spec(c).0 < split_rev_spec(rev).0 by {
        assert(m.contains_key(c));
        assert(!has_child(m, c)) by {
            if has_child(m, c) {
                let d = choose|d: Seq<char>| #[trigger] m.contains_key(d) && m[d].parent == Some(c);
                assert(n.contains_key(d) && n[d].parent == Some(c));
            }
        }
        assert(is_live_leaf(m, c));
        match parent {
            Some(w) => {
                assert(has_live_leaf(m));
                assert(is_candidate(m, c));
            },
            None => {
                assert(has_leaf(m));
            },
        }
    }
    assert(has_live_leaf(n));
    assert forall|c: Seq<char>| #[trigger] is_candidate(n, c) implies rev_key_le(c, rev) by {
        if c == rev {
            lemma_rev_key_le_refl(rev);
        }
    }
    assert forall|c: Seq<char>| is_winner(n, c) implies c == rev by {
        if c != rev {
            assert(is_candidate(n, rev));
            assert(rev_key_le(rev, c));
        }
    }
}

/// The tree-level form: after `apply_edit` stores a new id, the winner is
/// that id and reading it gives the written body.
pub proof fn lemma_apply_edit_read_back(before: RevTree, after: RevTree, rev: Seq<char>, content_hash: u64, body: serde_json::Value)
    requires
        before.wf(),
        after.wf(),
        edit_generation_fits(before.winning_rev()),
        rev == edit_rev_text(before.winning_rev(), content_hash),
        after@ == before@.insert(rev, RevNodeView { parent: before.winning_rev(), deleted: false, body }),
        !before@.contains_key(rev),
        !has_child(before@, rev),
    ensures
        after.winning_rev() == Some(rev),
        after@[rev].body == body,
        !after@[rev].deleted,
{
    before.lemma_winning_rev();
    after.lemma_winning_rev();
    lemma_edit_rev_generation(before.winning_rev(), content_hash);
    lemma_edit_becomes_winner(before@, before.winning_rev(), rev, body);
    assert(has_leaf(after@)) by {
        assert(is_leaf(after@, rev));
    }
}


/// The node that a stored entry restores to, its body decoded from JSON.
pub open spec fn restored_node(n: StoredNode) -> RevNodeView {
    RevNodeView { parent: option_text(n.parent), deleted: n.deleted, body: json_decoding(n.body@).unwrap() }
}

/// The tree that the first `n` stored entries restore to, a later entry
/// for an id replacing an earlier one.
pub open spec fn restore_upto(s: Seq<(String, StoredNode)>, n: int) -> Map<Seq<char>, RevNodeView>
    decreases n,
{
    if n <= 0 {
        Map::empty()
    } else {
        restore_upto(s, n - 1).insert(s[n - 1].0@, restored_node(s[n - 1].1))
    }
}

/// Every stored body decodes as JSON.
pub open spec fn all_bodies_decode(s: Seq<(String, StoredNode)>) -> bool {
    forall|i: int| 0 <= i < s.len() ==> (#[trigger] json_decoding(s[i].1.body@)) is Some
}

impl RevTree {
    /// The stored form of the tree: each revision with its body encoded as
    /// JSON bytes; an error where a body does not encode.
    pub fn to_stored(&self) -> (r: Result<StoredTree, serde_json::Error>)
        requires
            self.wf(),
        ensures
            match r {
                Ok(st) => {
                    &&& forall|i: int, j: int| 0 <= i < st.nodes@.len() && 0 <= j < st.nodes@.len() && i != j
                        ==> #[trigger] st.nodes@[i].0@ != #[trigger] st.nodes@[j].0@
                    &&& forall|k: Seq<char>| self@.contains_key(k) <==> exists|i: int| 0 <= i < st.nodes@.len() && #[trigger] st.nodes@[i].0@ == k
                    &&& forall|i: int| 0 <= i < st.nodes@.len() ==> {
                        let k = #[trigger] st.nodes@[i].0@;
                        &&& option_text(st.nodes@[i].1.parent) == self@[k].parent
                        &&& st.nodes@[i].1.deleted == self@[k].deleted
                        &&& json_encoding(self@[k].body) == Some(st.nodes@[i].1.body@)
                    }
                },
                Err(_) => exists|k: Seq<char>| self@.contains_key(k) && json_encoding(#[trigger] self@[k].body) is None,
            },
    {
        let mut out: Vec<(String, StoredNode)> = Vec::new();
        let mut i: usize = 0;
        while i < self.nodes.len()
            invariant
                self.wf(),
                i <= self.nodes@.len(),
                out@.len() == i,
                forall|t: int| 0 <= t < i ==> {
                    &&& #[trigger] out@[t].0@ == self.nodes@[t].0@
                    &&& option_text(out@[t].1.parent) == self.nodes@[t].1@.parent
                    &&& out@[t].1.deleted == self.nodes@[t].1@.deleted
                    &&& json_encoding(self.nodes@[t].1@.body) == Some(out@[t].1.body@)
                },
            decreases self.nodes.len() - i,
        {
            proof {
                self.lemma_at(i as int);
            }
            let body = match json_to_vec(&self.nodes[i].1.body) {
                Ok(b) => b,
                Err(e) => {
                    proof {
                        let k = self.nodes@[i as int].0@;
                        assert(self@.contains_key(k) && json_encoding(self@[k].body) is None);
                    }
                    return Err(e);
                },
            };
            let node = StoredNode { parent: self.nodes[i].1.parent.clone(), deleted: self.nodes[i].1.deleted, body };
            out.push((self.nodes[i].0.clone(), node));
            i = i + 1;
        }
        proof {
            assert forall|a: int, b: int| 0 <= a < out@.len() && 0 <= b < out@.len() && a != b
                implies #[trigger] out@[a].0@ != #[trigger] out@[b].0@ by {
                assert(self.entries()[a] == entry_view(self.nodes@[a]));
                assert(self.entries()[b] == entry_view(self.nodes@[b]));
                assert(self.entries()[a].0 != self.entries()[b].0);
            }
            assert forall|k: Seq<char>| self@.contains_key(k) <==> exists|t: int| 0 <= t < out@.len() && #[trigger] out@[t].0@ == k by {
                if self@.contains_key(k) {
                    let j = self.lemma_key_index(k);
                    assert(out@[j].0@ == k);
                }
                if exists|t: int| 0 <= t < out@.len() && #[trigger] out@[t].0@ == k {
                    let t = choose|t: int| 0 <= t < out@.len() && #[trigger] out@[t].0@ == k;
                    self.lemma_at(t);
                }
            }
            assert forall|t: int| 0 <= t < out@.len() implies {
                let k = #[trigger] out@[t].0@;
                &&& option_text(out@[t].1.parent) == self@[k].parent
                &&& out@[t].1.deleted == self@[k].deleted
                &&& json_encoding(self@[k].body) == Some(out@[t].1.body@)
            } by {
                self.lemma_at(t);
            }
        }
        Ok(StoredTree { nodes: out })
    }

    /// The tree that a stored form restores to, a later entry for an id
    /// replacing an earlier one; an error where a body does not decode.
    pub fn from_stored(stored: StoredTree) -> (r: Result<RevTree, serde_json::Error>)
        ensures
            r is Ok <==> all_bodies_decode(stored.nodes@),
            r matches Ok(t) ==> t.wf() && t@ == restore_upto(stored.nodes@, stored.nodes@.len() as int),
    {
        let mut tree = RevTree::new();
        let mut i: usize = 0;
        while i < stored.nodes.len()
            invariant
                i <= stored.nodes@.len(),
                tree.wf(),
                tree@ == restore_upto(stored.nodes@, i as int),
                forall|t: int| 0 <= t < i ==> (#[trigger] json_decoding(stored.nodes@[t].1.body@)) is Some,
            decreases stored.nodes.len() - i,
        {
            let body = match json_from_slice(stored.nodes[i].1.body.as_slice()) {
                Ok(v) => v,
                Err(e) => {
                    return Err(e);
                },
            };
            let node = RevNode { parent: stored.nodes[i].1.parent.clone(), deleted: stored.nodes[i].1.deleted, body };
            tree.insert_node(stored.nodes[i].0.clone(), node);
            i = i + 1;
        }
        Ok(tree)
    }
}


proof fn lemma_restore_upto_distinct(s: Seq<(String, StoredNode)>, n: int)
    requires
        0 <= n <= s.len(),
        forall|i: int, j: int| 0 <= i < s.len() && 0 <= j < s.len() && i != j ==> #[trigger] s[i].0@ != #[trigger] s[j].0@,
    ensures
        forall|k: Seq<char>| restore_upto(s, n).contains_key(k) <==> exists|i: int| 0 <= i < n && #[trigger] s[i].0@ == k,
        forall|i: int| 0 <= i < n ==> #[trigger] restore_upto(s, n)[s[i].0@] == restored_node(s[i].1),
    decreases n,
{
    if n > 0 {
        lemma_restore_upto_distinct(s, n - 1);
        let m = restore_upto(s, n);
        assert forall|k: Seq<char>| m.contains_key(k) <==> exists|i: int| 0 <= i < n && #[trigger] s[i].0@ == k by {
            if m.contains_key(k) && k != s[n - 1].0@ {
                assert(restore_upto(s, n - 1).contains_key(k));
                let i = choose|i: int| 0 <= i < n - 1 && #[trigger] s[i].0@ == k;
                assert(0 <= i < n && s[i].0@ == k);
            }
            if exists|i: int| 0 <= i < n && #[trigger] s[i].0@ == k {
                let i = choose|i: int| 0 <= i < n && #[trigger] s[i].0@ == k;
                if i < n - 1 {
                    assert(restore_upto(s, n - 1).contains_key(s[i].0@));
                }
            }
        }
        assert forall|i: int| 0 <= i < n implies #[trigger] m[s[i].0@] == restored_node(s[i].1) by {
            if i < n - 1 {
                assert(s[i].0@ != s[n - 1].0@);
                assert(restore_upto(s, n - 1)[s[i].0@] == restored_node(s[i].1));
            }
        }
    }
}

/// What is written is what is read back: restoring the stored form of a
/// tree gives the same tree, wherever every body decodes back from its
/// JSON encoding to itself.
pub proof fn lemma_stored_round_trip(t: RevTree, st: StoredTree)
    requires
        t.wf(),
        forall|i: int, j: int| 0 <= i < st.nodes@.len() && 0 <= j < st.nodes@.len() && i != j
            ==> #[trigger] st.nodes@[i].0@ != #[trigger] st.nodes@[j].0@,
        forall|k: Seq<char>| t@.contains_key(k) <==> exists|i: int| 0 <= i < st.nodes@.len() && #[trigger] st.nodes@[i].0@ == k,
        forall|i: int| 0 <= i < st.nodes@.len() ==> {
            let k = #[trigger] st.nodes@[i].0@;
            &&& option_text(st.nodes@[i].1.parent) == t@[k].parent
            &&& st.nodes@[i].1.deleted == t@[k].deleted
            &&& json_encoding(t@[k].body) == Some(st.nodes@[i].1.body@)
        },
        forall|k: Seq<char>| #[trigger] t@.contains_key(k) ==> json_decoding(json_encoding(t@[k].body).unwrap()) == Some(t@[k].body),
    ensures
        all_bodies_decode(st.nodes@),
        restore_upto(st.nodes@, st.nodes@.len() as int) == t@,
{
    let s = st.nodes@;
    lemma_restore_upto_distinct(s, s.len() as int);
    let m = restore_upto(s, s.len() as int);
    assert forall|i: int| 0 <= i < s.len() implies (#[trigger] json_decoding(s[i].1.body@)) is Some by {
        let k = s[i].0@;
        assert(t@.contains_key(k));
    }
    assert forall|k: Seq<char>| #[trigger] m.contains_key(k) implies m[k] == t@[k] by {
        let i = choose|i: int| 0 <= i < s.len() && #[trigger] s[i].0@ == k;
        assert(m[s[i].0@] == restored_node(s[i].1));
        assert(t@.contains_key(k));
    }
    assert(m.dom() =~= t@.dom());
    assert(m =~= t@);
}


/// Resolving a conflict: a deletion tombstone stored on top of a losing
/// live leaf keeps the winner and takes that branch out of the live
/// leaves (and so out of the conflicts); the branch itself stays stored.
pub proof fn lemma_tombstone_resolves_conflict(
    m: Map<Seq<char>, RevNodeView>,
    w: Seq<char>,
    loser: Seq<char>,
    tomb: Seq<char>,
    body: serde_json::Value,
)
    requires
        is_winner(m, w),
        is_live_leaf(m, loser),
        loser != w,
        !m.contains_key(tomb),
        !has_child(m, tomb),
    ensures
        is_winner(m.insert(tomb, RevNodeView { parent: Some(loser), deleted: true, body }), w),
        forall|k: Seq<char>|
            is_live_leaf(m.insert(tomb, RevNodeView { parent: Some(loser), deleted: true, body }), k)
                <==> (is_live_leaf(m, k) && k != loser),
        m.insert(tomb, RevNodeView { parent: Some(loser), deleted: true, body }).contains_key(loser),
{
    let n = m.insert(tomb, RevNodeView { parent: Some(loser), deleted: true, body });
    assert(has_child(n, loser)) by {
        assert(n.contains_key(tomb) && n[tomb].parent == Some(loser));
    }
    assert forall|k: Seq<char>| is_live_leaf(n, k) <==> (is_live_leaf(m, k) && k != loser) by {
        if k == tomb {
            assert(n[tomb].deleted);
        } else if k != loser {
            if has_child(m, k) {
                let c = choose|c: Seq<char>| #[trigger] m.contains_key(c) && m[c].parent == Some(k);
                assert(n.contains_key(c) && n[c].parent == Some(k));
            }
            if has_child(n, k) {
                let c = choose|c: Seq<char>| #[trigger] n.contains_key(c) && n[c].parent == Some(k);
                if c != tomb {
                    assert(m.contains_key(c) && m[c].parent == Some(k));
                }
            }
            if is_live_leaf(m, k) {
                assert(n[k] == m[k]);
            }
            if is_live_leaf(n, k) {
                assert(n[k] == m[k]);
            }
        }
    }
    assert(has_live_leaf(m));
    assert(is_live_leaf(m, w));
    assert(is_live_leaf(n, w));
    assert(has_live_leaf(n));
    assert forall|c: Seq<char>| #[trigger] is_candidate(n, c) implies rev_key_le(c, w) by {
        assert(is_live_leaf(m, c));
        assert(is_candidate(m, c));
    }
}


impl Clone for RevTree {
    fn clone(&self) -> (r: Self)
        ensures
            r@ == self@,
            r.wf() == self.wf(),
    {
        let mut nodes: Vec<(String, RevNode)> = Vec::new();
        let mut i: usize = 0;
        while i < self.nodes.len()
            invariant
                i <= self.nodes@.len(),
                nodes@.len() == i,
                forall|t: int| 0 <= t < i ==> #[trigger] entry_view(nodes@[t]) == entry_view(self.nodes@[t]),
            decreases self.nodes.len() - i,
        {
            nodes.push((self.nodes[i].0.clone(), self.nodes[i].1.clone()));
            i = i + 1;
        }
        let r = RevTree { nodes };
        proof {
            assert(r.entries() =~= self.entries()) by {
                assert forall|t: int| 0 <= t < r.entries().len() implies r.entries()[t] == self.entries()[t] by {
                    assert(entry_view(r.nodes@[t]) == entry_view(self.nodes@[t]));
                }
            }
        }
        r
    }
}

} // verus!
