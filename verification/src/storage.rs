//! The stored form of documents and of the sequence log: revision trees
//! as they are written to disk, the keys of the `(seq, doc_id)` log, and
//! storage errors.

use vstd::prelude::*;
use vstd::std_specs::convert::FromSpecImpl;
use crate::bytes::{be_bytes, be_value, bytes_le, u64_from_be, u64_to_be};
use crate::text::bytes_debug_text;

verus! {

/// `sled::Error`: a failure of the embedded store itself.
#[verifier::external_type_specification]
#[verifier::external_body]
pub struct ExSledError(sled::Error);

/// A read or write failed: the store itself erred, or the bytes stored do
/// not decode into what they should.
pub enum StorageError {
    Sled(sled::Error),
    Corrupt(String),
}

impl From<sled::Error> for StorageError {
    fn from(e: sled::Error) -> (r: Self) {
        StorageError::Sled(e)
    }
}

impl FromSpecImpl<sled::Error> for StorageError {
    open spec fn obeys_from_spec() -> bool {
        true
    }

    open spec fn from_spec(e: sled::Error) -> Self {
        StorageError::Sled(e)
    }
}

/// `sled::Error`'s `Display`: the error's text.
#[verifier::external_body]
fn sled_error_text(e: &sled::Error) -> String {
    e.to_string()
}

impl StorageError {
    /// The error's text, as its `Display` writes it.
    pub fn message(&self) -> (r: String)
        ensures
            self matches StorageError::Corrupt(m) ==> r@ == "corrupt stored data:"@.push(' ') + m@,
            self is Sled ==> "storage error:"@.push(' ').is_prefix_of(r@),
    {
        match self {
            StorageError::Sled(e) => {
                proof {
                    reveal_strlit("storage error:");
                }
                crate::text::join_with("storage error:", ' ', sled_error_text(e).as_str())
            },
            StorageError::Corrupt(m) => {
                proof {
                    reveal_strlit("corrupt stored data:");
                }
                crate::text::join_with("corrupt stored data:", ' ', m.as_str())
            },
        }
    }
}

/// The key of sequence number `seq` in the sequence log: its eight bytes,
/// most significant first, so that keys sort as their numbers.
pub fn seq_key(seq: u64) -> (r: Vec<u8>)
    ensures
        r@ == be_bytes(seq as nat, 8),
        r@.len() == 8,
        be_value(r@) == seq,
{
    u64_to_be(seq)
}

/// The sequence number a write gets from the store's id generator: one
/// above the generated id, so that no write has sequence number 0 and
/// `since=0` means "from the very start".
pub fn assigned_seq(generated_id: u64) -> (r: u64)
    requires
        generated_id < u64::MAX,
    ensures
        r == generated_id + 1,
        r > 0,
{
    generated_id + 1
}

/// The first log key that `_changes?since=N` reads: that of `N + 1`;
/// `None` for the highest sequence number, after which there is nothing
/// to read (`since` itself is excluded).
pub fn changes_start_key(since: u64) -> (r: Option<Vec<u8>>)
    ensures
        match r {
            Some(k) => since < u64::MAX && k@ == be_bytes(since as nat + 1, 8),
            None => since == u64::MAX,
        },
{
    if since == u64::MAX {
        None
    } else {
        Some(u64_to_be(since + 1))
    }
}

/// Reads a scanned run of sequence-log entries, in order, into
/// `(seq, doc_id)` pairs; the first entry that does not decode makes it
/// fail with that entry's error.
pub fn decode_changes(entries: &Vec<(Vec<u8>, Vec<u8>)>) -> (r: Result<Vec<(u64, String)>, StorageError>)
    ensures
        match r {
            Ok(v) => v@.len() == entries@.len() && forall|i: int| 0 <= i < v@.len() ==> {
                let (k, val) = #[trigger] entries@[i];
                &&& k@.len() == 8
                &&& v@[i].0 == be_value(k@)
                &&& vstd::utf8::valid_utf8(val@)
                &&& v@[i].1@ == vstd::utf8::decode_utf8(val@)
            },
            Err(e) => exists|i: int| {
                &&& 0 <= i < entries@.len()
                &&& !entry_decodes(#[trigger] entries@[i])
                &&& forall|j: int| 0 <= j < i ==> entry_decodes(#[trigger] entries@[j])
                &&& e is Corrupt
            },
        },
{
    let mut out: Vec<(u64, String)> = Vec::new();
    let mut i: usize = 0;
    while i < entries.len()
        invariant
            i <= entries@.len(),
            out@.len() == i,
            forall|j: int| 0 <= j < i ==> {
                let (k, val) = #[trigger] entries@[j];
                &&& k@.len() == 8
                &&& out@[j].0 == be_value(k@)
                &&& vstd::utf8::valid_utf8(val@)
                &&& out@[j].1@ == vstd::utf8::decode_utf8(val@)
            },
        decreases entries.len() - i,
    {
        match decode_seq_entry(entries[i].0.as_slice(), entries[i].1.as_slice()) {
            Ok(e) => {
                out.push(e);
            },
            Err(e) => {
                proof {
                    assert(!entry_decodes(entries@[i as int]));
                    assert forall|j: int| 0 <= j < i implies entry_decodes(#[trigger] entries@[j]) by {
                        let (k, val) = entries@[j];
                    }
                }
                return Err(e);
            },
        }
        i = i + 1;
    }
    Ok(out)
}

/// A sequence-log entry decodes: an eight-byte key and a UTF-8 value.
pub open spec fn entry_decodes(e: (Vec<u8>, Vec<u8>)) -> bool {
    e.0@.len() == 8 && vstd::utf8::valid_utf8(e.1@)
}

/// Reads a sequence-log key back into its number.
pub fn decode_seq_key(key: &[u8]) -> (r: Result<u64, StorageError>)
    ensures
        match r {
            Ok(n) => key@.len() == 8 && n == be_value(key@),
            Err(e) => key@.len() != 8 && (e matches StorageError::Corrupt(m) && m@ == "seq_log key is not 8 bytes:"@.push(' ') + bytes_debug_text(key@)),
        },
{
    if key.len() != 8 {
        proof {
            reveal_strlit("seq_log key is not 8 bytes:");
        }
        return Err(StorageError::Corrupt(crate::text::join_with("seq_log key is not 8 bytes:", ' ', crate::text::bytes_debug(key).as_str())));
    }
    Ok(u64_from_be(key))
}

/// Reads one `(seq, doc_id)` entry of the sequence log.
pub fn decode_seq_entry(key: &[u8], value: &[u8]) -> (r: Result<(u64, String), StorageError>)
    ensures
        match r {
            Ok((n, id)) => key@.len() == 8 && n == be_value(key@) && vstd::utf8::valid_utf8(value@)
                && id@ == vstd::utf8::decode_utf8(value@),
            Err(e) => if key@.len() != 8 {
                e matches StorageError::Corrupt(m) && m@ == "seq_log key is not 8 bytes:"@.push(' ') + bytes_debug_text(key@)
            } else {
                !vstd::utf8::valid_utf8(value@) && (e matches StorageError::Corrupt(m)
                    && "seq_log value is not valid UTF-8:"@.push(' ').is_prefix_of(m@))
            },
        },
{
    let seq = decode_seq_key(key)?;
    match crate::text::string_from_utf8(value) {
        Ok(id) => Ok((seq, id)),
        Err(e) => {
            proof {
                reveal_strlit("seq_log value is not valid UTF-8:");
            }
            let m = crate::text::join_with("seq_log value is not valid UTF-8:", ' ', e.as_str());
            proof {
                assert("seq_log value is not valid UTF-8:"@.push(' ').is_prefix_of(m@)) by {
                    assert(m@.subrange(0, "seq_log value is not valid UTF-8:"@.len() as int + 1) =~= "seq_log value is not valid UTF-8:"@.push(' '));
                }
            }
            Err(StorageError::Corrupt(m))
        },
    }
}

/// A sequence-log key reads back as the number it was made from.
pub proof fn lemma_seq_key_roundtrip(seq: u64)
    ensures
        be_bytes(seq as nat, 8).len() == 8,
        be_value(be_bytes(seq as nat, 8)) == seq,
{
    crate::bytes::lemma_be_roundtrip(seq);
}

/// A scan of the log from the start key of `since` reaches exactly the
/// writes with a higher sequence number, in order; in particular every
/// write is reached from `since=0`, since none has sequence number 0.
pub proof fn lemma_changes_scan_bounds(since: u64, seq: u64)
    requires
        since < u64::MAX,
    ensures
        bytes_le(be_bytes(since as nat + 1, 8), be_bytes(seq as nat, 8)) <==> seq > since,
{
    crate::bytes::lemma_be_keys_ordered((since + 1) as u64, seq);
}

/// How one revision is stored: its body as JSON bytes.
pub struct StoredNode {
    pub parent: Option<String>,
    pub deleted: bool,
    pub body: Vec<u8>,
}

/// A revision tree as it is written to disk: its entries in a list.
pub struct StoredTree {
    pub nodes: Vec<(String, StoredNode)>,
}

} // verus!
