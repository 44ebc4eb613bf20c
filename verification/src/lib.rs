//! Revision-tree logic, sequence bookkeeping and request decisions of a
//! CouchDB-replication-compatible document server.

pub mod api;
pub mod attachments;
pub mod auth;
pub mod bytes;
pub mod changes;
pub mod digest;
pub mod documents;
pub mod json;
pub mod reads;
pub mod replication;
pub mod revtree;
pub mod storage;
pub mod text;
