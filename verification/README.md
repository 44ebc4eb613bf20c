# couchdb_clone

The verified core of a document server that speaks CouchDB's replication
protocol (the one PouchDB's `db.sync()` uses).

- `src/` is the library, checked by Verus: per-document revision trees
  (leaves, the deterministic winner, conflicts, `_revs_diff`, replicated
  revision chains, last-write-wins edits), the stored form of trees and of
  the `(seq, doc_id)` log, `_changes` deduplication and the continuous feed's
  state, HTTP Basic authentication decisions, digests, inline attachments
  (decoding, stubs, inflating them back), edits of document bodies and the
  reading of request payloads, and the HTTP layer's error decisions.
- `app/` is the server around it: axum routes, sled storage, the tokio
  broadcast channels of the live feed, credential files, and the storing
  and fetching of attachment bytes.
- `tests/` exercises the library with the real outside crates.
