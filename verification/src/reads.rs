//! What a read of a document answers: `GET /{db}/{id}`, `_bulk_get` and
//! the rows of `_changes`.

use vstd::prelude::*;
use crate::revtree::{RevNode, RevTree, RevNodeView, is_leaf, option_ref_text};

verus! {

/// Why a read finds no document body: the document or revision is not
/// stored, or it is a deletion tombstone.
#[derive(Debug, Clone, Copy, PartialEq, Eq, Structural)]
pub enum ReadError {
    Missing,
    Deleted,
}

impl ReadError {
    /// The `reason` that CouchDB gives for it.
    pub fn reason(&self) -> (r: &'static str)
        ensures
            r@ == match self {
                ReadError::Missing => "missing"@,
                ReadError::Deleted => "deleted"@,
            },
    {
        proof {
            reveal_strlit("missing");
            reveal_strlit("deleted");
        }
        match self {
            ReadError::Missing => "missing",
            ReadError::Deleted => "deleted",
        }
    }
}

/// `GET /{db}/{id}`: the winning revision and its node, unless the
/// document is not stored or has no winner (`Missing`), or its winner is a
/// tombstone (`Deleted`).
pub fn read_current(tree: Option<&RevTree>) -> (r: Result<(&String, &RevNode), ReadError>)
    requires
        tree matches Some(t) ==> t.wf(),
    ensures
        match tree {
            None => r == Err::<(&String, &RevNode), ReadError>(ReadError::Missing),
            Some(t) => match t.winning_rev() {
                None => r == Err::<(&String, &RevNode), ReadError>(ReadError::Missing),
                Some(w) => if t@[w].deleted {
                    r == Err::<(&String, &RevNode), ReadError>(ReadError::Deleted)
                } else {
                    r matches Ok((rev, node)) && rev@ == w && node@ == t@[w]
                },
            },
        },
{
    match tree {
        None => Err(ReadError::Missing),
        Some(t) => {
            proof {
                t.lemma_winning_rev();
            }
            match t.winner() {
                None => Err(ReadError::Missing),
                Some(w) => {
                    match t.get(w.as_str()) {
                        Some(node) => {
                            if node.deleted {
                                Err(ReadError::Deleted)
                            } else {
                                Ok((w, node))
                            }
                        },
                        None => Err(ReadError::Missing),
                    }
                },
            }
        },
    }
}

/// One `_bulk_get` request: the requested revision, or the winner where
/// none is requested. A failure carries the revision id that was looked at,
/// if one was.
pub fn read_revision<'a>(tree: Option<&'a RevTree>, requested: Option<&String>) -> (r: Result<(String, &'a RevNode), (Option<String>, ReadError)>)
    requires
        tree matches Some(t) ==> t.wf(),
    ensures
        match tree {
            None => r matches Err((None, ReadError::Missing)),
            Some(t) => {
                let target = match requested {
                    Some(q) => Some(q@),
                    None => t.winning_rev(),
                };
                match target {
                    None => r matches Err((None, ReadError::Missing)),
                    Some(k) => if !t@.contains_key(k) {
                        r matches Err((Some(rev), ReadError::Missing)) && rev@ == k
                    } else if t@[k].deleted {
                        r matches Err((Some(rev), ReadError::Deleted)) && rev@ == k
                    } else {
                        r matches Ok((rev, node)) && rev@ == k && node@ == t@[k]
                    },
                }
            },
        },
{
    match tree {
        None => Err((None, ReadError::Missing)),
        Some(t) => {
            let rev: String = match requested {
                Some(q) => q.clone(),
                None => match t.winner() {
                    Some(w) => w.clone(),
                    None => {
                        return Err((None, ReadError::Missing));
                    },
                },
            };
            match t.get(rev.as_str()) {
                Some(node) => {
                    if node.deleted {
                        Err((Some(rev), ReadError::Deleted))
                    } else {
                        Ok((rev, node))
                    }
                },
                None => Err((Some(rev), ReadError::Missing)),
            }
        },
    }
}

/// A `_changes` row for a document: the revisions it lists (every leaf for
/// `style=all_docs`, else the winner alone) and whether the winner is
/// deleted. `None` where the tree has no winner.
pub fn change_revs(tree: &RevTree, all_docs: bool) -> (r: Option<(Vec<&String>, bool)>)
    requires
        tree.wf(),
    ensures
        match tree.winning_rev() {
            None => r is None,
            Some(w) => r matches Some((revs, deleted)) && deleted == tree@[w].deleted && if all_docs {
                revs@.map_values(|s: &String| s@).no_duplicates() && forall|k: Seq<char>|
                    revs@.map_values(|s: &String| s@).contains(k) <==> is_leaf(tree@, k)
            } else {
                revs@.map_values(|s: &String| s@) == seq![w]
            },
        },
{
    proof {
        tree.lemma_winning_rev();
    }
    match tree.winner() {
        None => None,
        Some(w) => {
            let deleted = match tree.get(w.as_str()) {
                Some(node) => node.deleted,
                None => false,
            };
            if all_docs {
                Some((tree.leaves(), deleted))
            } else {
                let mut v: Vec<&String> = Vec::new();
                v.push(w);
                proof {
                    assert(v@.map_values(|s: &String| s@) =~= seq![w@]);
                }
                Some((v, deleted))
            }
        },
    }
}

} // verus!
