//! Decisions of the HTTP layer that are not I/O: error names and reasons,
//! store tree names, and how a failed write is reported.

use vstd::prelude::*;
use crate::text::{chars_of, join_with, string_from_chars};
use crate::json::{json_as_str, json_get, json_is_object, json_member, json_remove, member_text};

verus! {

/// The CouchDB `error` name for an error status that a handler did not
/// answer in JSON itself.
pub fn error_name_for_status(status: u16) -> (r: &'static str)
    ensures
        r@ == if status == 404 {
            "not_found"@
        } else if status == 405 {
            "method_not_allowed"@
        } else if 500 <= status <= 599 {
            "internal_error"@
        } else {
            "bad_request"@
        },
{
    if status == 404 {
        "not_found"
    } else if status == 405 {
        "method_not_allowed"
    } else if 500 <= status && status <= 599 {
        "internal_error"
    } else {
        "bad_request"
    }
}

/// Whether an error response's body is rewritten into CouchDB's JSON
/// error shape: a client or server error (4xx, 5xx) whose content type is
/// not already JSON.
pub fn rewrites_error_body(status: u16, content_type: Option<&str>) -> (r: bool)
    ensures
        r == (400 <= status <= 599 && !(content_type matches Some(c) && "application/json"@.is_prefix_of(c@))),
{
    if status < 400 || status > 599 {
        return false;
    }
    match content_type {
        Some(c) => !crate::text::starts_with_text(c, "application/json"),
        None => true,
    }
}

/// A character of a status text as it reads in a `reason`: ASCII letters
/// lower-cased, spaces as underscores.
pub open spec fn reason_char(c: char) -> char {
    if c == ' ' {
        '_'
    } else if 'A' <= c <= 'Z' {
        ((c as u32) + 32) as char
    } else {
        c
    }
}

/// An all-ASCII text.
pub open spec fn ascii_text(s: Seq<char>) -> bool {
    forall|i: int| 0 <= i < s.len() ==> (#[trigger] s[i] as u32) < 128
}

/// The `reason` given for an error response with an empty body: the
/// status's canonical text, lower-cased with `_` for spaces (`"error"`
/// where the status has none).
pub fn reason_from_status_text(canonical: Option<&str>) -> (r: String)
    requires
        canonical matches Some(c) ==> ascii_text(c@),
    ensures
        match canonical {
            Some(c) => r@ == c@.map_values(|ch: char| reason_char(ch)),
            None => r@ == "error"@,
        },
{
    match canonical {
        None => {
            proof {
                reveal_strlit("error");
            }
            "error".to_owned()
        },
        Some(c) => {
            let cs = chars_of(c);
            let mut out: Vec<char> = Vec::new();
            let mut i: usize = 0;
            while i < cs.len()
                invariant
                    i <= cs@.len(),
                    cs@ == c@,
                    ascii_text(c@),
                    out@ == c@.take(i as int).map_values(|ch: char| reason_char(ch)),
                decreases cs.len() - i,
            {
                let ch = cs[i];
                let mapped = if ch == ' ' {
                    '_'
                } else if 'A' <= ch && ch <= 'Z' {
                    lower_ascii(ch)
                } else {
                    ch
                };
                out.push(mapped);
                proof {
                    assert(c@.take(i + 1).map_values(|ch: char| reason_char(ch)) =~= c@.take(
                        i as int,
                    ).map_values(|ch: char| reason_char(ch)).push(reason_char(c@[i as int])));
                }
                i = i + 1;
            }
            proof {
                assert(c@.take(c@.len() as int) =~= c@);
            }
            string_from_chars(&out)
        },
    }
}

/// The `reason` of a rewritten error response: its (trimmed) body text,
/// or where that is empty, the reason that the status's text gives.
pub fn error_reason(body_text: &str, canonical: Option<&str>) -> (r: String)
    requires
        canonical matches Some(c) ==> ascii_text(c@),
    ensures
        body_text@.len() > 0 ==> r@ == body_text@,
        body_text@.len() == 0 ==> match canonical {
            Some(c) => r@ == c@.map_values(|ch: char| reason_char(ch)),
            None => r@ == "error"@,
        },
{
    if body_text.unicode_len() == 0 {
        reason_from_status_text(canonical)
    } else {
        body_text.to_owned()
    }
}

/// The lower-case form of an upper-case ASCII letter.
fn lower_ascii(c: char) -> (r: char)
    requires
        'A' <= c <= 'Z',
    ensures
        r == ((c as u32) + 32) as char,
{
    let b = (c as u8) + 32;
    b as char
}

/// The name of one of a database's store trees: `"{db}::{suffix}"`.
pub fn tree_name(db: &str, suffix: &str) -> (r: String)
    ensures
        r@ == db@.push(':').push(':') + suffix@,
{
    let colon_suffix = join_with("", ':', suffix);
    proof {
        reveal_strlit("");
    }
    let r = join_with(db, ':', colon_suffix.as_str());
    proof {
        assert(r@ =~= db@.push(':').push(':') + suffix@);
    }
    r
}

/// The id under which a `_local` document is reported: `"_local/{id}"`.
pub fn local_doc_id(id: &str) -> (r: String)
    ensures
        r@ == "_local"@.push('/') + id@,
{
    join_with("_local", '/', id)
}

/// Why a document write failed.
#[derive(Debug, Clone, Copy, PartialEq, Eq, Structural)]
pub enum WriteError {
    /// A replicated document came without a `_rev`, or with a
    /// `_revisions` that names no revision.
    MissingRev,
    /// An inline attachment was not valid base64.
    InvalidAttachment,
    /// Storage failed.
    WriteFailed,
}

impl WriteError {
    /// The `reason` reported for it.
    pub fn reason(&self) -> (r: &'static str)
        ensures
            r@ == match self {
                WriteError::MissingRev => "missing _rev"@,
                WriteError::InvalidAttachment => "invalid attachment data"@,
                WriteError::WriteFailed => "failed to write document"@,
            },
    {
        match self {
            WriteError::MissingRev => "missing _rev",
            WriteError::InvalidAttachment => "invalid attachment data",
            WriteError::WriteFailed => "failed to write document",
        }
    }

    /// The `error` name reported for it: a storage failure is the server's,
    /// the others are the request's.
    pub fn error_name(&self) -> (r: &'static str)
        ensures
            r@ == if *self == WriteError::WriteFailed {
                "internal_error"@
            } else {
                "bad_request"@
            },
    {
        match self {
            WriteError::WriteFailed => "internal_error",
            _ => "bad_request",
        }
    }

    /// The HTTP status of a single-document write that failed so.
    pub fn status(&self) -> (r: u16)
        ensures
            r == if *self == WriteError::WriteFailed {
                500u16
            } else {
                400u16
            },
    {
        match self {
            WriteError::WriteFailed => 500,
            _ => 400,
        }
    }
}

/// `r` is `v` without the members named in `keys`: for an object, every
/// other member kept as it was; any other value unchanged.
pub open spec fn without_members(r: serde_json::Value, v: serde_json::Value, keys: Seq<Seq<char>>) -> bool {
    if json_is_object(v) {
        json_is_object(r) && forall|k: Seq<char>| #[trigger] json_member(r, k) == if keys.contains(k) {
            None
        } else {
            json_member(v, k)
        }
    } else {
        r == v
    }
}

/// How `_bulk_docs` (with new edits) takes a document: its id is its
/// string `_id`, else the freshly drawn `drawn_id`; the body to store is
/// the document without `_id` and `_rev`.
pub fn bulk_doc_identity(doc: &serde_json::Value, drawn_id: String) -> (r: (String, serde_json::Value))
    ensures
        r.0@ == match member_text(*doc, "_id"@) {
            Some(t) => t,
            None => drawn_id@,
        },
        without_members(r.1, *doc, seq!["_id"@, "_rev"@]),
{
    proof {
        reveal_strlit("_id");
        reveal_strlit("_rev");
        assert("_id"@ != "_rev"@) by {
            assert("_id"@[1] != "_rev"@[1]);
        }
    }
    let id = match json_get(doc, "_id") {
        Some(v) => match json_as_str(v) {
            Some(t) => t.to_owned(),
            None => drawn_id,
        },
        None => drawn_id,
    };
    let mut body = doc.clone();
    json_remove(&mut body, "_id");
    json_remove(&mut body, "_rev");
    proof {
        let keys = seq!["_id"@, "_rev"@];
        if json_is_object(*doc) {
            assert forall|k: Seq<char>| #[trigger] json_member(body, k) == if keys.contains(k) {
                None
            } else {
                json_member(*doc, k)
            } by {
                if k == "_id"@ {
                    assert(keys[0] == k);
                } else if k == "_rev"@ {
                    assert(keys[1] == k);
                } else {
                    assert(!keys.contains(k)) by {
                        if keys.contains(k) {
                            let j = choose|j: int| 0 <= j < keys.len() && keys[j] == k;
                        }
                    }
                }
            }
        }
    }
    (id, body)
}

} // verus!
