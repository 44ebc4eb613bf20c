//! `_changes` feed: the events every write publishes and the deduplication
//! of the sequence log into one row per document.

use vstd::prelude::*;

verus! {

/// One write to a database: its sequence number and the document written.
#[derive(Debug)]
pub struct ChangeEvent {
    pub seq: u64,
    pub doc_id: String,
}

impl Clone for ChangeEvent {
    fn clone(&self) -> (r: Self)
        ensures
            r.seq == self.seq,
            r.doc_id@ == self.doc_id@,
    {
        ChangeEvent { seq: self.seq, doc_id: self.doc_id.clone() }
    }
}

pub open spec fn pair_view(e: (u64, String)) -> (u64, Seq<char>) {
    (e.0, e.1@)
}

pub open spec fn pairs_view(s: Seq<(u64, String)>) -> Seq<(u64, Seq<char>)> {
    s.map_values(|e: (u64, String)| pair_view(e))
}

/// `e` is an entry of `es` and no entry of `es` for the same document has a
/// higher sequence number.
pub open spec fn is_latest(es: Seq<(u64, Seq<char>)>, e: (u64, Seq<char>)) -> bool {
    es.contains(e) && forall|j: int| 0 <= j < es.len() && #[trigger] es[j].1 == e.1 ==> es[j].0 <= e.0
}

/// No document occurs twice in `r`.
pub open spec fn ids_distinct(r: Seq<(u64, Seq<char>)>) -> bool {
    forall|i: int, j: int| 0 <= i < r.len() && 0 <= j < r.len() && i != j ==> #[trigger] r[i].1 != #[trigger] r[j].1
}

/// Some row of `r` is for document `id`.
pub open spec fn has_row_for(r: Seq<(u64, Seq<char>)>, id: Seq<char>) -> bool {
    exists|i: int| 0 <= i < r.len() && r[i].1 == id
}

/// Every document of `es` occurs in `r`.
pub open spec fn covers(r: Seq<(u64, Seq<char>)>, es: Seq<(u64, Seq<char>)>) -> bool {
    forall|k: int| 0 <= k < es.len() ==> #[trigger] has_row_for(r, es[k].1)
}

/// `r` is ordered by sequence number.
pub open spec fn seq_ordered(r: Seq<(u64, Seq<char>)>) -> bool {
    forall|i: int, j: int| 0 <= i < j < r.len() ==> #[trigger] r[i].0 <= #[trigger] r[j].0
}

/// `r` is the deduplication of `es`: one row per document, holding that
/// document's highest sequence number, rows ordered by sequence number.
pub open spec fn is_dedupe_of(r: Seq<(u64, Seq<char>)>, es: Seq<(u64, Seq<char>)>) -> bool {
    &&& seq_ordered(r)
    &&& ids_distinct(r)
    &&& forall|i: int| 0 <= i < r.len() ==> is_latest(es, #[trigger] r[i])
    &&& covers(r, es)
}

proof fn lemma_covers_push(r: Seq<(u64, Seq<char>)>, es: Seq<(u64, Seq<char>)>, e: (u64, Seq<char>))
    requires
        covers(r, es),
    ensures
        covers(r.push(e), es.push(e)),
{
    let nr = r.push(e);
    let ne = es.push(e);
    assert forall|k: int| 0 <= k < ne.len() implies #[trigger] has_row_for(nr, ne[k].1) by {
        if k < es.len() {
            assert(ne[k] == es[k]);
            assert(has_row_for(r, es[k].1));
                                let u = choose|u: int| 0 <= u < r.len() && r[u].1 == es[k].1;
            assert(nr[u] == r[u]);
        } else {
            assert(nr[r.len() as int].1 == ne[k].1);
        }
    }
}

/// Position of the entry for document `id` in `v`.
fn find_id(v: &Vec<(u64, String)>, id: &String) -> (r: Option<usize>)
    ensures
        match r {
            Some(p) => p < v@.len() && v@[p as int].1@ == id@,
            None => forall|t: int| 0 <= t < v@.len() ==> v@[t].1@ != id@,
        },
{
    let mut t: usize = 0;
    while t < v.len()
        invariant
            t <= v@.len(),
            forall|u: int| 0 <= u < t ==> v@[u].1@ != id@,
        decreases v.len() - t,
    {
        if v[t].1 == *id {
            return Some(t);
        }
        t = t + 1;
    }
    None
}

/// Of possibly many `(seq, doc_id)` log entries for the same document,
/// keeps only the one with the highest seq; one row per document, in seq
/// order (rows of equal seq in no promised order).
pub fn dedupe_latest(entries: Vec<(u64, String)>) -> (r: Vec<(u64, String)>)
    ensures
        is_dedupe_of(pairs_view(r@), pairs_view(entries@)),
{
    let ghost es = pairs_view(entries@);
    // One entry per document, with its highest seq so far.
    let mut latest: Vec<(u64, String)> = Vec::new();
    let mut i: usize = 0;
    while i < entries.len()
        invariant
            i <= entries@.len(),
            es == pairs_view(entries@),
            ids_distinct(pairs_view(latest@)),
            forall|t: int| 0 <= t < latest@.len() ==> is_latest(es.take(i as int), #[trigger] pairs_view(latest@)[t]),
            covers(pairs_view(latest@), es.take(i as int)),
        decreases entries.len() - i,
    {
        let s = entries[i].0;
        let ghost e = es[i as int];
        let ghost pre = es.take(i as int);
        let ghost post = es.take(i + 1);
        let ghost lv = pairs_view(latest@);
        proof {
            assert(post =~= pre.push(e));
            assert(e == (s, entries@[i as int].1@));
        }
        match find_id(&latest, &entries[i].1) {
            Some(p) => {
                if latest[p].0 < s {
                    let id = entries[i].1.clone();
                    latest.set(p, (s, id));
                    proof {
                        let nv = pairs_view(latest@);
                        assert(nv =~= lv.update(p as int, e));
                        assert forall|a: int, b: int| 0 <= a < nv.len() && 0 <= b < nv.len() && a != b implies #[trigger] nv[a].1 != #[trigger] nv[b].1 by {
                            assert(nv[a].1 == lv[a].1 && nv[b].1 == lv[b].1);
                        }
                        assert forall|t: int| 0 <= t < nv.len() implies is_latest(post, #[trigger] nv[t]) by {
                            if t == p {
                                assert(post[i as int] == e);
                                assert forall|j: int| 0 <= j < post.len() && #[trigger] post[j].1 == e.1 implies post[j].0 <= e.0 by {
                                    if j < i {
                                        assert(post[j] == pre[j]);
                                        assert(is_latest(pre, lv[p as int]));
                                    }
                                }
                            } else {
                                assert(nv[t] == lv[t]);
                                assert(is_latest(pre, lv[t]));
                                let w = choose|w: int| 0 <= w < pre.len() && #[trigger] pre[w] == lv[t];
                                assert(post[w] == pre[w]);
                                assert forall|j: int| 0 <= j < post.len() && #[trigger] post[j].1 == lv[t].1 implies post[j].0 <= lv[t].0 by {
                                    if j < i {
                                        assert(post[j] == pre[j]);
                                    } else {
                                        assert(lv[p as int].1 == e.1);
                                    }
                                }
                            }
                        }
                        assert(lv[p as int].1 == e.1);
                        assert forall|k: int| 0 <= k < post.len() implies #[trigger] has_row_for(nv, post[k].1) by {
                            if k < i {
                                assert(post[k] == pre[k]);
                                assert(has_row_for(lv, pre[k].1));
                                let u = choose|u: int| 0 <= u < lv.len() && lv[u].1 == pre[k].1;
                                assert(nv[u].1 == lv[u].1);
                                assert(nv[u].1 == post[k].1);
                            } else {
                                assert(nv[p as int].1 == post[k].1);
                            }
                        }
                        assert(covers(nv, post));
                    }
                } else {
                    proof {
                        assert(lv[p as int].1 == e.1);
                        assert(post[i as int] == e);
                        assert forall|t: int| 0 <= t < lv.len() implies is_latest(post, #[trigger] lv[t]) by {
                            assert(is_latest(pre, lv[t]));
                            let w = choose|w: int| 0 <= w < pre.len() && #[trigger] pre[w] == lv[t];
                            assert(post[w] == pre[w]);
                            assert forall|j: int| 0 <= j < post.len() && #[trigger] post[j].1 == lv[t].1 implies post[j].0 <= lv[t].0 by {
                                if j < i {
                                    assert(post[j] == pre[j]);
                                } else {
                                    if lv[t].1 == e.1 {
                                        assert(t == p);
                                    }
                                }
                            }
                        }
                        assert forall|k: int| 0 <= k < post.len() implies #[trigger] has_row_for(lv, post[k].1) by {
                            if k < i {
                                assert(post[k] == pre[k]);
                                assert(has_row_for(lv, pre[k].1));
                                let u = choose|u: int| 0 <= u < lv.len() && lv[u].1 == pre[k].1;
                                assert(lv[u].1 == post[k].1);
                            } else {
                                assert(lv[p as int].1 == post[k].1);
                            }
                        }
                        assert(covers(lv, post));
                    }
                }
            },
            None => {
                let id = entries[i].1.clone();
                latest.push((s, id));
                proof {
                    let nv = pairs_view(latest@);
                    assert(nv =~= lv.push(e));
                    assert forall|a: int, b: int| 0 <= a < nv.len() && 0 <= b < nv.len() && a != b implies #[trigger] nv[a].1 != #[trigger] nv[b].1 by {
                        if a < lv.len() && b < lv.len() {
                            assert(nv[a] == lv[a] && nv[b] == lv[b]);
                        } else if a < lv.len() {
                            assert(nv[a] == lv[a]);
                        } else {
                            assert(nv[b] == lv[b]);
                        }
                    }
                    assert forall|t: int| 0 <= t < nv.len() implies is_latest(post, #[trigger] nv[t]) by {
                        if t < lv.len() {
                            assert(nv[t] == lv[t]);
                            assert(is_latest(pre, lv[t]));
                            let w = choose|w: int| 0 <= w < pre.len() && #[trigger] pre[w] == lv[t];
                            assert(post[w] == pre[w]);
                            assert forall|j: int| 0 <= j < post.len() && #[trigger] post[j].1 == lv[t].1 implies post[j].0 <= lv[t].0 by {
                                if j < i {
                                    assert(post[j] == pre[j]);
                                }
                            }
                        } else {
                            assert(post[i as int] == e);
                            assert forall|j: int| 0 <= j < post.len() && #[trigger] post[j].1 == e.1 implies post[j].0 <= e.0 by {
                                if j < i {
                                    assert(post[j] == pre[j]);
                                    assert(has_row_for(lv, pre[j].1));
                                }
                            }
                        }
                    }
                    lemma_covers_push(lv, pre, e);
                }
            },
        }
        i = i + 1;
    }
    proof {
        assert(es.take(entries@.len() as int) =~= es);
    }
    let ghost lv = pairs_view(latest@);
    let r = sort_by_seq(latest);
    proof {
        let rv = pairs_view(r@);
        assert forall|t: int| 0 <= t < rv.len() implies is_latest(es, #[trigger] rv[t]) by {
            assert(rv.contains(rv[t]));
            assert(lv.contains(rv[t]));
            let u = choose|u: int| 0 <= u < lv.len() && #[trigger] lv[u] == rv[t];
        }
        assert forall|k: int| 0 <= k < es.len() implies #[trigger] has_row_for(rv, es[k].1) by {
            let all = es.take(entries@.len() as int);
            assert(all[k] == es[k]);
            assert(covers(lv, all));
            assert(has_row_for(lv, all[k].1));
            let u = choose|u: int| 0 <= u < lv.len() && lv[u].1 == es[k].1;
            assert(lv.contains(lv[u]));
            assert(rv.contains(lv[u]));
            let t = choose|t: int| 0 <= t < rv.len() && #[trigger] rv[t] == lv[u];
            assert(rv[t].1 == es[k].1);
        }
    }
    r
}

/// No two different entries share a sequence number, as in the sequence
/// log, where each write gets a number of its own.
pub open spec fn seqs_unique(es: Seq<(u64, Seq<char>)>) -> bool {
    forall|a: int, b: int| 0 <= a < es.len() && 0 <= b < es.len() && (#[trigger] es[a]).0 == (#[trigger] es[b]).0 ==> es[a] == es[b]
}

/// `a` and `b` hold the same entries, in any order.
pub open spec fn same_entries(a: Seq<(u64, Seq<char>)>, b: Seq<(u64, Seq<char>)>) -> bool {
    forall|x: (u64, Seq<char>)| a.contains(x) <==> b.contains(x)
}

/// Rows in strictly increasing order of sequence number.
spec fn strictly_ordered(r: Seq<(u64, Seq<char>)>) -> bool {
    forall|i: int, j: int| 0 <= i < j < r.len() ==> (#[trigger] r[i]).0 < (#[trigger] r[j]).0
}

proof fn lemma_dedupe_strictly_ordered(r: Seq<(u64, Seq<char>)>, es: Seq<(u64, Seq<char>)>)
    requires
        seqs_unique(es),
        is_dedupe_of(r, es),
    ensures
        strictly_ordered(r),
        seqs_unique(r),
{
    assert forall|i: int, j: int| 0 <= i < r.len() && 0 <= j < r.len() && (#[trigger] r[i]).0 == (#[trigger] r[j]).0 implies r[i] == r[j] by {
        assert(is_latest(es, r[i]) && is_latest(es, r[j]));
        let a = choose|a: int| 0 <= a < es.len() && es[a] == r[i];
        let b = choose|b: int| 0 <= b < es.len() && es[b] == r[j];
        assert(es[a].0 == es[b].0);
    }
    assert forall|i: int, j: int| 0 <= i < j < r.len() implies (#[trigger] r[i]).0 < (#[trigger] r[j]).0 by {
        assert(r[i].0 <= r[j].0);
        if r[i].0 == r[j].0 {
            assert(r[i] == r[j]);
            assert(r[i].1 != r[j].1);
        }
    }
}

/// Two rows of strictly increasing sequence numbers with the same entries
/// are the same.
proof fn lemma_strictly_ordered_unique(a: Seq<(u64, Seq<char>)>, b: Seq<(u64, Seq<char>)>)
    requires
        strictly_ordered(a),
        strictly_ordered(b),
        same_entries(a, b),
    ensures
        a == b,
    decreases a.len(),
{
    if a.len() == 0 {
        if b.len() > 0 {
            assert(b.contains(b[0]));
        }
        assert(a =~= b);
    } else {
        assert(a.contains(a[0]));
        assert(b.contains(a[0]));
        let j = choose|j: int| 0 <= j < b.len() && b[j] == a[0];
        assert(b.contains(b[0]));
        assert(a.contains(b[0]));
        let i = choose|i: int| 0 <= i < a.len() && a[i] == b[0];
        if i > 0 {
            assert(a[0].0 < a[i].0);
        }
        if j > 0 {
            assert(b[0].0 < b[j].0);
        }
        assert(a[0] == b[0]);
        let ra = a.drop_first();
        let rb = b.drop_first();
        assert forall|x: (u64, Seq<char>)| ra.contains(x) <==> rb.contains(x) by {
            if ra.contains(x) {
                let k = choose|k: int| 0 <= k < ra.len() && ra[k] == x;
                assert(a[k + 1] == x);
                assert(a.contains(x));
                assert(b.contains(x));
                let m = choose|m: int| 0 <= m < b.len() && b[m] == x;
                assert(a[0].0 < a[k + 1].0);
                if m == 0 {
                    assert(false);
                }
                assert(rb[m - 1] == x);
            }
            if rb.contains(x) {
                let k = choose|k: int| 0 <= k < rb.len() && rb[k] == x;
                assert(b[k + 1] == x);
                assert(b.contains(x));
                assert(a.contains(x));
                let m = choose|m: int| 0 <= m < a.len() && a[m] == x;
                assert(b[0].0 < b[k + 1].0);
                if m == 0 {
                    assert(false);
                }
                assert(ra[m - 1] == x);
            }
        }
        assert forall|p: int, q: int| 0 <= p < q < ra.len() implies (#[trigger] ra[p]).0 < (#[trigger] ra[q]).0 by {
            assert(ra[p] == a[p + 1] && ra[q] == a[q + 1]);
        }
        assert forall|p: int, q: int| 0 <= p < q < rb.len() implies (#[trigger] rb[p]).0 < (#[trigger] rb[q]).0 by {
            assert(rb[p] == b[p + 1] && rb[q] == b[q + 1]);
        }
        lemma_strictly_ordered_unique(ra, rb);
        assert(a =~= seq![a[0]] + ra);
        assert(b =~= seq![b[0]] + rb);
    }
}

/// Every row of one deduplication of `es` is a row of any other.
proof fn lemma_dedupe_rows_shared(r1: Seq<(u64, Seq<char>)>, r2: Seq<(u64, Seq<char>)>, es: Seq<(u64, Seq<char>)>)
    requires
        seqs_unique(es),
        is_dedupe_of(r1, es),
        is_dedupe_of(r2, es),
    ensures
        forall|x: (u64, Seq<char>)| r1.contains(x) ==> r2.contains(x),
{
    assert forall|x: (u64, Seq<char>)| r1.contains(x) implies r2.contains(x) by {
        let i = choose|i: int| 0 <= i < r1.len() && r1[i] == x;
        assert(is_latest(es, r1[i]));
        let w = choose|w: int| 0 <= w < es.len() && es[w] == x;
        assert(has_row_for(r2, es[w].1));
        let u = choose|u: int| 0 <= u < r2.len() && r2[u].1 == es[w].1;
        assert(is_latest(es, r2[u]));
        let w2 = choose|w2: int| 0 <= w2 < es.len() && es[w2] == r2[u];
        assert(es[w].0 <= r2[u].0);
        assert(es[w2].0 <= x.0);
        assert(es[w] == es[w2]);
        assert(r2[u] == x);
    }
}

/// Where no two log entries share a sequence number, deduplicating has
/// exactly one result.
pub proof fn lemma_dedupe_unique(r1: Seq<(u64, Seq<char>)>, r2: Seq<(u64, Seq<char>)>, es: Seq<(u64, Seq<char>)>)
    requires
        seqs_unique(es),
        is_dedupe_of(r1, es),
        is_dedupe_of(r2, es),
    ensures
        r1 == r2,
{
    lemma_dedupe_rows_shared(r1, r2, es);
    lemma_dedupe_rows_shared(r2, r1, es);
    lemma_dedupe_strictly_ordered(r1, es);
    lemma_dedupe_strictly_ordered(r2, es);
    lemma_strictly_ordered_unique(r1, r2);
}

/// A deduplication of `es` is its own deduplication.
proof fn lemma_dedupe_of_itself(r: Seq<(u64, Seq<char>)>, es: Seq<(u64, Seq<char>)>)
    requires
        seqs_unique(es),
        is_dedupe_of(r, es),
    ensures
        is_dedupe_of(r, r),
        seqs_unique(r),
{
    lemma_dedupe_strictly_ordered(r, es);
    assert forall|i: int| 0 <= i < r.len() implies is_latest(r, #[trigger] r[i]) by {
        assert(r.contains(r[i]));
        assert forall|j: int| 0 <= j < r.len() && #[trigger] r[j].1 == r[i].1 implies r[j].0 <= r[i].0 by {
            if j != i {
                assert(r[j].1 != r[i].1);
            }
        }
    }
    assert forall|k: int| 0 <= k < r.len() implies #[trigger] has_row_for(r, r[k].1) by {
        assert(r[k].1 == r[k].1);
    }
}

/// Deduplicating is idempotent: deduplicating the rows that deduplicating
/// the log gave gives those same rows again (where no two log entries
/// share a sequence number).
pub proof fn lemma_dedupe_idempotent(es: Seq<(u64, Seq<char>)>, r: Seq<(u64, Seq<char>)>, r2: Seq<(u64, Seq<char>)>)
    requires
        seqs_unique(es),
        is_dedupe_of(r, es),
        is_dedupe_of(r2, r),
    ensures
        r2 == r,
{
    lemma_dedupe_of_itself(r, es);
    lemma_dedupe_unique(r2, r, r);
}

/// Deduplicating does not depend on the order of the log entries: any
/// arrangement of the same entries gives the same rows (where no two
/// entries share a sequence number).
pub proof fn lemma_dedupe_order_independent(
    es: Seq<(u64, Seq<char>)>,
    es2: Seq<(u64, Seq<char>)>,
    r: Seq<(u64, Seq<char>)>,
    r2: Seq<(u64, Seq<char>)>,
)
    requires
        seqs_unique(es),
        same_entries(es, es2),
        is_dedupe_of(r, es),
        is_dedupe_of(r2, es2),
    ensures
        r == r2,
{
    assert forall|a: int, b: int| 0 <= a < es2.len() && 0 <= b < es2.len() && (#[trigger] es2[a]).0 == (#[trigger] es2[b]).0 implies es2[a] == es2[b] by {
        assert(es2.contains(es2[a]) && es2.contains(es2[b]));
        assert(es.contains(es2[a]) && es.contains(es2[b]));
        let p = choose|p: int| 0 <= p < es.len() && es[p] == es2[a];
        let q = choose|q: int| 0 <= q < es.len() && es[q] == es2[b];
    }
    assert forall|i: int| 0 <= i < r.len() implies is_latest(es2, #[trigger] r[i]) by {
        assert(is_latest(es, r[i]));
        assert(es2.contains(r[i]));
        assert forall|j: int| 0 <= j < es2.len() && #[trigger] es2[j].1 == r[i].1 implies es2[j].0 <= r[i].0 by {
            assert(es2.contains(es2[j]));
            assert(es.contains(es2[j]));
            let w = choose|w: int| 0 <= w < es.len() && es[w] == es2[j];
            assert(es[w].1 == r[i].1);
        }
    }
    assert forall|k: int| 0 <= k < es2.len() implies #[trigger] has_row_for(r, es2[k].1) by {
        assert(es2.contains(es2[k]));
        assert(es.contains(es2[k]));
        let w = choose|w: int| 0 <= w < es.len() && es[w] == es2[k];
        assert(has_row_for(r, es[w].1));
    }
    assert(is_dedupe_of(r, es2));
    lemma_dedupe_unique(r, r2, es2);
}

/// Orders rows by sequence number (stably).
fn sort_by_seq(v: Vec<(u64, String)>) -> (r: Vec<(u64, String)>)
    requires
        ids_distinct(pairs_view(v@)),
    ensures
        seq_ordered(pairs_view(r@)),
        ids_distinct(pairs_view(r@)),
        forall|x: (u64, Seq<char>)| pairs_view(r@).contains(x) <==> pairs_view(v@).contains(x),
{
    let ghost vv = pairs_view(v@);
    let mut out: Vec<(u64, String)> = Vec::new();
    let mut i: usize = 0;
    while i < v.len()
        invariant
            i <= v@.len(),
            vv == pairs_view(v@),
            ids_distinct(vv),
            seq_ordered(pairs_view(out@)),
            ids_distinct(pairs_view(out@)),
            forall|x: (u64, Seq<char>)| pairs_view(out@).contains(x) <==> vv.take(i as int).contains(x),
        decreases v.len() - i,
    {
        let s = v[i].0;
        let ghost x = vv[i as int];
        let ghost ov = pairs_view(out@);
        let mut pos: usize = 0;
        while pos < out.len() && out[pos].0 <= s
            invariant
                pos <= out@.len(),
                ov == pairs_view(out@),
                forall|u: int| 0 <= u < pos ==> #[trigger] ov[u].0 <= s,
            decreases out.len() - pos,
        {
            pos = pos + 1;
        }
        out.insert(pos, (s, v[i].1.clone()));
        proof {
            let nv = pairs_view(out@);
            assert(x == (s, v@[i as int].1@));
            assert(nv =~= ov.insert(pos as int, x));
            assert(vv.take(i + 1) =~= vv.take(i as int).push(x));
            // x's document is not among the rows so far.
            assert forall|u: int| 0 <= u < ov.len() implies ov[u].1 != x.1 by {
                assert(ov.contains(ov[u]));
                assert(vv.take(i as int).contains(ov[u]));
                let w = choose|w: int| 0 <= w < i && #[trigger] vv.take(i as int)[w] == ov[u];
                assert(vv[w] == ov[u]);
            }
            assert forall|a: int, b: int| 0 <= a < b < nv.len() implies #[trigger] nv[a].0 <= #[trigger] nv[b].0 by {
                if b < pos {
                    assert(nv[a] == ov[a] && nv[b] == ov[b]);
                } else if b == pos {
                    assert(nv[a] == ov[a]);
                } else if a < pos {
                    assert(nv[a] == ov[a] && nv[b] == ov[b - 1]);
                    if pos < ov.len() {
                        assert(ov[pos as int].0 > s);
                        if a < pos {
                            assert(ov[a].0 <= ov[b - 1].0);
                        }
                    }
                } else if a == pos {
                    assert(nv[b] == ov[b - 1]);
                    assert(ov[pos as int].0 > s);
                    if b - 1 > pos {
                        assert(ov[pos as int].0 <= ov[b - 1].0);
                    }
                } else {
                    assert(nv[a] == ov[a - 1] && nv[b] == ov[b - 1]);
                }
            }
            assert forall|a: int, b: int| 0 <= a < nv.len() && 0 <= b < nv.len() && a != b implies #[trigger] nv[a].1 != #[trigger] nv[b].1 by {
                let oa = if a < pos { a } else { a - 1 };
                let ob = if b < pos { b } else { b - 1 };
                if a != pos && b != pos {
                    assert(nv[a] == ov[oa] && nv[b] == ov[ob]);
                } else if a == pos {
                    assert(nv[b] == ov[ob]);
                } else {
                    assert(nv[a] == ov[oa]);
                }
            }
            assert forall|y: (u64, Seq<char>)| nv.contains(y) <==> vv.take(i + 1).contains(y) by {
                if nv.contains(y) {
                    let a = choose|a: int| 0 <= a < nv.len() && #[trigger] nv[a] == y;
                    if a < pos {
                        assert(ov[a] == y);
                        assert(ov.contains(y));
                    } else if a > pos {
                        assert(ov[a - 1] == y);
                        assert(ov.contains(y));
                    }
                    if y != x {
                        let w = choose|w: int| 0 <= w < i && #[trigger] vv.take(i as int)[w] == y;
                        assert(vv.take(i + 1)[w] == y);
                    } else {
                        assert(vv.take(i + 1)[i as int] == y);
                    }
                }
                if vv.take(i + 1).contains(y) {
                    let w = choose|w: int| 0 <= w < i + 1 && #[trigger] vv.take(i + 1)[w] == y;
                    if w < i {
                        assert(vv.take(i as int)[w] == y);
                        assert(vv.take(i as int).contains(y));
                        assert(ov.contains(y));
                        let a = choose|a: int| 0 <= a < ov.len() && #[trigger] ov[a] == y;
                        if a < pos {
                            assert(nv[a] == y);
                        } else {
                            assert(nv[a + 1] == y);
                        }
                    } else {
                        assert(nv[pos as int] == y);
                    }
                }
            }
        }
        i = i + 1;
    }
    proof {
        assert(vv.take(v@.len() as int) =~= vv);
    }
    out
}

} // verus!

verus! {

/// How `_changes` delivers its rows.
#[derive(Debug, Clone, Copy, PartialEq, Eq, Structural)]
pub enum FeedMode {
    /// One response with every change since `since`.
    Normal,
    /// Wait for a change (or the timeout), then answer as `Normal`.
    Longpoll,
    /// Stream rows as changes happen.
    Continuous,
}

/// The parameters of a `_changes` request.
#[derive(Debug, Clone, Copy, PartialEq, Eq, Structural)]
pub struct ChangesQuery {
    pub since: u64,
    pub all_docs: bool,
    pub mode: FeedMode,
}

/// Reads `_changes` query parameters: `since` a `u64` (0 where absent or
/// not a number), `style=all_docs`, and `feed=longpoll|continuous` (any
/// other value, or none, is the normal feed).
pub fn parse_changes_query(since: Option<&str>, style: Option<&str>, feed: Option<&str>) -> (r: ChangesQuery)
    ensures
        r.since == match since {
            Some(s) => match crate::text::parse_u64_spec(s@) {
                Some(n) => n,
                None => 0,
            },
            None => 0,
        },
        r.all_docs == (style matches Some(s) && s@ == "all_docs"@),
        r.mode == match feed {
            Some(f) => if f@ == "continuous"@ {
                FeedMode::Continuous
            } else if f@ == "longpoll"@ {
                FeedMode::Longpoll
            } else {
                FeedMode::Normal
            },
            None => FeedMode::Normal,
        },
{
    let since_value = match since {
        Some(s) => match crate::text::parse_u64(s) {
            Some(n) => n,
            None => 0,
        },
        None => 0,
    };
    let all_docs = match style {
        Some(s) => crate::text::same_text(s, "all_docs"),
        None => false,
    };
    let mode = match feed {
        Some(f) => if crate::text::same_text(f, "continuous") {
            FeedMode::Continuous
        } else if crate::text::same_text(f, "longpoll") {
            FeedMode::Longpoll
        } else {
            FeedMode::Normal
        },
        None => FeedMode::Normal,
    };
    ChangesQuery { since: since_value, all_docs, mode }
}

impl ChangesQuery {
    /// Whether a longpoll must wait for a new change before answering:
    /// nothing was written after `since` yet.
    pub fn must_wait(&self, current_seq: u64) -> (r: bool)
        ensures
            r == (current_seq <= self.since),
    {
        current_seq <= self.since
    }
}

/// The state of a `feed=continuous` stream: rows queued to send (catch-up
/// rows, or rows re-read after the live channel fell behind) and the
/// highest sequence number sent so far.
pub struct ContinuousFeed {
    queue: Vec<(u64, String)>,
    next: usize,
    last_seq: u64,
}

impl ContinuousFeed {
    /// The rows still queued.
    pub closed spec fn pending(&self) -> Seq<(u64, Seq<char>)> {
        pairs_view(self.queue@).skip(self.next as int)
    }

    /// The highest sequence number sent so far (or the starting point).
    pub closed spec fn sent_up_to(&self) -> u64 {
        self.last_seq
    }

    pub closed spec fn wf(&self) -> bool {
        self.next <= self.queue@.len()
    }

    /// A stream starting after `since`, with the log entries written since
    /// then queued once per document (see `dedupe_latest`); the starting
    /// point is the last queued row's seq, or `since` where none is queued.
    pub fn start(since: u64, entries: Vec<(u64, String)>) -> (r: Self)
        ensures
            r.wf(),
            is_dedupe_of(r.pending(), pairs_view(entries@)),
            r.sent_up_to() == if r.pending().len() > 0 {
                r.pending().last().0
            } else {
                since
            },
    {
        let queue = dedupe_latest(entries);
        let last_seq = if queue.len() > 0 {
            queue[queue.len() - 1].0
        } else {
            since
        };
        let r = ContinuousFeed { queue, next: 0, last_seq };
        proof {
            assert(r.pending() =~= pairs_view(r.queue@));
        }
        r
    }

    /// Takes the next queued row, if any.
    pub fn next_queued(&mut self) -> (r: Option<(u64, String)>)
        requires
            old(self).wf(),
        ensures
            final(self).wf(),
            final(self).sent_up_to() == old(self).sent_up_to(),
            match r {
                Some(row) => old(self).pending().len() > 0 && pair_view(row) == old(self).pending()[0]
                    && final(self).pending() == old(self).pending().drop_first(),
                None => old(self).pending().len() == 0 && final(self).pending() == old(self).pending(),
            },
    {
        if self.next < self.queue.len() {
            let row = (self.queue[self.next].0, self.queue[self.next].1.clone());
            self.next = self.next + 1;
            proof {
                assert(self.pending() =~= old(self).pending().drop_first());
            }
            Some(row)
        } else {
            None
        }
    }

    /// A queued row was sent: the high-water mark rises to its seq.
    pub fn sent_queued(&mut self, seq: u64)
        ensures
            final(self).pending() == old(self).pending(),
            final(self).wf() == old(self).wf(),
            final(self).sent_up_to() == if seq > old(self).sent_up_to() {
                seq
            } else {
                old(self).sent_up_to()
            },
    {
        if seq > self.last_seq {
            self.last_seq = seq;
        }
    }

    /// Whether a live change is new to this stream: one at or below the
    /// high-water mark was already sent (or queued) and is skipped.
    pub fn wants_live(&self, seq: u64) -> (r: bool)
        ensures
            r == (seq > self.sent_up_to()),
    {
        seq > self.last_seq
    }

    /// A live change's row was sent.
    pub fn sent_live(&mut self, seq: u64)
        requires
            seq > old(self).sent_up_to(),
        ensures
            final(self).pending() == old(self).pending(),
            final(self).wf() == old(self).wf(),
            final(self).sent_up_to() == seq,
    {
        self.last_seq = seq;
    }

    /// Where to re-read the log from after the live channel fell behind.
    pub fn resume_from(&self) -> (r: u64)
        ensures
            r == self.sent_up_to(),
    {
        self.last_seq
    }

    /// Queues the log entries re-read after falling behind, once per
    /// document.
    pub fn refill(&mut self, entries: Vec<(u64, String)>)
        ensures
            final(self).wf(),
            final(self).sent_up_to() == old(self).sent_up_to(),
            is_dedupe_of(final(self).pending(), pairs_view(entries@)),
    {
        self.queue = dedupe_latest(entries);
        self.next = 0;
        proof {
            assert(self.pending() =~= pairs_view(self.queue@));
        }
    }
}

/// What happened to a `feed=continuous` stream since its last step.
pub enum FeedEvent {
    /// The stream is ready for its next row.
    Next,
    /// The row of the change with this sequence number was sent.
    Sent(u64),
    /// A live change arrived: its sequence number and document.
    Live(u64, String),
    /// The live channel fell behind and dropped changes.
    Lagged,
    /// The log was re-read after falling behind: its entries after the
    /// point the stream resumed from.
    Reread(Vec<(u64, String)>),
    /// The live channel closed.
    Closed,
}

/// What a `feed=continuous` stream does next.
pub enum FeedAction {
    /// Build and send the row of this change (none where its document is
    /// gone; then ask again).
    Emit(u64, String),
    /// Wait for the next live change.
    Receive,
    /// Re-read the log after this sequence number.
    Reread(u64),
    /// Nothing to send; ask again.
    Continue,
    /// End the stream.
    Stop,
}

impl ContinuousFeed {
    /// One step of a `feed=continuous` stream: queued rows go out first, in
    /// order; with none queued the stream waits for live changes, sending
    /// only those above the high-water mark; a lagging live channel makes
    /// it re-read the log from the high-water mark and queue what it finds;
    /// a closed one ends the stream.
    pub fn step(&mut self, event: FeedEvent) -> (a: FeedAction)
        requires
            old(self).wf(),
        ensures
            final(self).wf(),
            match event {
                FeedEvent::Next => final(self).sent_up_to() == old(self).sent_up_to() && if old(self).pending().len() > 0 {
                    &&& a matches FeedAction::Emit(seq, id) && (seq, id@) == old(self).pending()[0]
                    &&& final(self).pending() == old(self).pending().drop_first()
                } else {
                    a is Receive && final(self).pending() == old(self).pending()
                },
                FeedEvent::Sent(seq) => {
                    &&& a is Continue
                    &&& final(self).pending() == old(self).pending()
                    &&& final(self).sent_up_to() == if seq > old(self).sent_up_to() {
                        seq
                    } else {
                        old(self).sent_up_to()
                    }
                },
                FeedEvent::Live(seq, id) => {
                    &&& final(self).pending() == old(self).pending()
                    &&& final(self).sent_up_to() == old(self).sent_up_to()
                    &&& if seq > old(self).sent_up_to() {
                        a matches FeedAction::Emit(s, i) && s == seq && i@ == id@
                    } else {
                        a is Continue
                    }
                },
                FeedEvent::Lagged => {
                    &&& a matches FeedAction::Reread(from) && from == old(self).sent_up_to()
                    &&& final(self).pending() == old(self).pending()
                    &&& final(self).sent_up_to() == old(self).sent_up_to()
                },
                FeedEvent::Reread(entries) => {
                    &&& a is Continue
                    &&& is_dedupe_of(final(self).pending(), pairs_view(entries@))
                    &&& final(self).sent_up_to() == old(self).sent_up_to()
                },
                FeedEvent::Closed => {
                    &&& a is Stop
                    &&& final(self).pending() == old(self).pending()
                    &&& final(self).sent_up_to() == old(self).sent_up_to()
                },
            },
    {
        match event {
            FeedEvent::Next => match self.next_queued() {
                Some((seq, id)) => FeedAction::Emit(seq, id),
                None => FeedAction::Receive,
            },
            FeedEvent::Sent(seq) => {
                self.sent_queued(seq);
                FeedAction::Continue
            },
            FeedEvent::Live(seq, id) => {
                if self.wants_live(seq) {
                    FeedAction::Emit(seq, id)
                } else {
                    FeedAction::Continue
                }
            },
            FeedEvent::Lagged => FeedAction::Reread(self.resume_from()),
            FeedEvent::Reread(entries) => {
                self.refill(entries);
                FeedAction::Continue
            },
            FeedEvent::Closed => FeedAction::Stop,
        }
    }
}

} // verus!
