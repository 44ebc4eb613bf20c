use couchdb_clone::api::{bulk_doc_identity, error_name_for_status, local_doc_id, reason_from_status_text, tree_name, WriteError};
use couchdb_clone::auth::{constant_time_eq, parse_basic_auth, request_authorized, Credentials};
use couchdb_clone::changes::{dedupe_latest, parse_changes_query, ChangeEvent, ContinuousFeed, FeedMode};
use couchdb_clone::digest::{content_hash, digest_of};
use couchdb_clone::reads::{change_revs, read_current, read_revision, ReadError};
use couchdb_clone::replication::{replicated_body, replicated_write, revision_chain};
use couchdb_clone::revtree::{RevNode, RevTree};
use couchdb_clone::storage::{assigned_seq, changes_start_key, decode_changes, decode_seq_entry, decode_seq_key, seq_key, StorageError};
use couchdb_clone::text::{decimal_string, hex_string, parse_u64};
use serde_json::Value;

fn obj(pairs: Vec<(&str, Value)>) -> Value {
    let mut m = serde_json::Map::new();
    for (k, v) in pairs {
        m.insert(k.to_string(), v);
    }
    Value::Object(m)
}

fn node(parent: Option<&str>, deleted: bool) -> RevNode {
    RevNode { parent: parent.map(String::from), deleted, body: obj(vec![]) }
}

#[test]
fn dedupe_keeps_highest_seq_per_doc_in_seq_order() {
    let entries = vec![
        (1, "a".to_string()),
        (2, "b".to_string()),
        (3, "a".to_string()),
        (4, "c".to_string()),
        (5, "b".to_string()),
    ];
    assert_eq!(dedupe_latest(entries), vec![(3, "a".to_string()), (4, "c".to_string()), (5, "b".to_string())]);
    assert_eq!(dedupe_latest(vec![]), vec![]);
}

#[test]
fn dedupe_with_out_of_order_entries() {
    let entries = vec![(9, "x".to_string()), (2, "y".to_string()), (4, "x".to_string())];
    assert_eq!(dedupe_latest(entries), vec![(2, "y".to_string()), (9, "x".to_string())]);
}

#[test]
fn changes_query_parsing() {
    let q = parse_changes_query(Some("42"), Some("all_docs"), Some("continuous"));
    assert_eq!(q.since, 42);
    assert!(q.all_docs);
    assert_eq!(q.mode, FeedMode::Continuous);
    let q = parse_changes_query(Some("nope"), Some("main_only"), Some("longpoll"));
    assert_eq!(q.since, 0);
    assert!(!q.all_docs);
    assert_eq!(q.mode, FeedMode::Longpoll);
    let q = parse_changes_query(None, None, Some("normal"));
    assert_eq!(q.since, 0);
    assert_eq!(q.mode, FeedMode::Normal);
    assert!(q.must_wait(0));
    assert!(!q.must_wait(1));
}

#[test]
fn continuous_feed_catches_up_then_skips_seen_events() {
    let mut feed = ContinuousFeed::start(0, vec![(1, "a".to_string()), (2, "b".to_string()), (3, "a".to_string())]);
    assert_eq!(feed.resume_from(), 3);
    assert_eq!(feed.next_queued(), Some((2, "b".to_string())));
    feed.sent_queued(2);
    assert_eq!(feed.next_queued(), Some((3, "a".to_string())));
    feed.sent_queued(3);
    assert_eq!(feed.next_queued(), None);
    let event = ChangeEvent { seq: 3, doc_id: "a".to_string() };
    assert!(!feed.wants_live(event.clone().seq));
    assert!(feed.wants_live(4));
    feed.sent_live(4);
    assert_eq!(feed.resume_from(), 4);
    feed.refill(vec![(5, "c".to_string()), (6, "c".to_string())]);
    assert_eq!(feed.next_queued(), Some((6, "c".to_string())));
    assert_eq!(feed.next_queued(), None);

    let empty = ContinuousFeed::start(7, vec![]);
    assert_eq!(empty.resume_from(), 7);
}

#[test]
fn constant_time_eq_compares_exactly() {
    assert!(constant_time_eq("secret", "secret"));
    assert!(!constant_time_eq("secret", "secreT"));
    assert!(!constant_time_eq("secret", "secrets"));
    assert!(constant_time_eq("", ""));
    assert!(constant_time_eq("héllo", "héllo"));
    assert!(!constant_time_eq("héllo", "hello"));
}

#[test]
fn basic_auth_header_parsing() {
    assert_eq!(parse_basic_auth("Basic YWRtaW46c2VjcmV0"), Some(("admin".to_string(), "secret".to_string())));
    assert_eq!(parse_basic_auth("Basic dXNlcjpwYTpzcw=="), Some(("user".to_string(), "pa:ss".to_string())));
    assert_eq!(parse_basic_auth("Basic bm9jb2xvbg=="), None);
    assert_eq!(parse_basic_auth("Bearer YWRtaW46c2VjcmV0"), None);
    assert_eq!(parse_basic_auth("Basic !!!"), None);
    assert_eq!(parse_basic_auth("Basic //46eA=="), None);
}

#[test]
fn requests_need_matching_credentials_except_root() {
    let creds = Credentials { username: "admin".to_string(), password: "secret".to_string() };
    assert!(request_authorized("GET", "/", None, &creds));
    assert!(!request_authorized("HEAD", "/", None, &creds));
    assert!(!request_authorized("POST", "/", None, &creds));
    assert!(!request_authorized("DELETE", "/", None, &creds));
    assert!(request_authorized("POST", "/", Some("Basic YWRtaW46c2VjcmV0"), &creds));
    assert!(!request_authorized("GET", "/db", None, &creds));
    assert!(request_authorized("GET", "/db", Some("Basic YWRtaW46c2VjcmV0"), &creds));
    assert!(!request_authorized("GET", "/db", Some("Basic dXNlcjpwYTpzcw=="), &creds));
    assert!(!request_authorized("GET", "/db", Some("garbage"), &creds));
}

#[test]
fn credentials_sources_in_priority_order() {
    let stored = Credentials { username: "u".to_string(), password: "p".to_string() };
    let c = Credentials::pick(Some("e".to_string()), Some("f".to_string()), Some(stored.clone())).unwrap();
    assert_eq!((c.username.as_str(), c.password.as_str()), ("e", "f"));
    let c = Credentials::pick(Some("e".to_string()), None, Some(stored.clone())).unwrap();
    assert_eq!((c.username.as_str(), c.password.as_str()), ("u", "p"));
    assert!(Credentials::pick(None, None, None).is_none());
    let g = Credentials::generated("pw".to_string());
    assert_eq!((g.username.as_str(), g.password.as_str()), ("admin", "pw"));
}

#[test]
fn seq_keys_are_big_endian_and_read_back() {
    assert_eq!(seq_key(1), vec![0, 0, 0, 0, 0, 0, 0, 1]);
    assert_eq!(seq_key(0x0102030405060708), vec![1, 2, 3, 4, 5, 6, 7, 8]);
    assert_eq!(decode_seq_key(&seq_key(u64::MAX)).ok(), Some(u64::MAX));
    assert!(matches!(decode_seq_key(&[1, 2, 3]), Err(StorageError::Corrupt(_))));
    assert!(seq_key(255) < seq_key(256));
    assert_eq!(changes_start_key(0), Some(seq_key(1)));
    assert_eq!(changes_start_key(41), Some(seq_key(42)));
    assert_eq!(changes_start_key(u64::MAX), None);
    assert_eq!(assigned_seq(0), 1);
}

#[test]
fn seq_log_entries_decode() {
    let (seq, id) = decode_seq_entry(&seq_key(7), b"doc-1").ok().unwrap();
    assert_eq!((seq, id.as_str()), (7, "doc-1"));
    assert!(matches!(decode_seq_entry(&seq_key(7), &[0xff, 0xfe]), Err(StorageError::Corrupt(_))));
    let err = decode_seq_entry(&[0], b"x").err().unwrap();
    assert!(err.message().starts_with("corrupt stored data: seq_log key is not 8 bytes"));
}

#[test]
fn first_document_ever_written_is_visible_in_changes_since_zero() {
    let base = sled::Config::new().temporary(true).open().unwrap();
    let seq_log = base.open_tree("testdb::seq").unwrap();

    let mut tree = RevTree::default();
    tree.insert_revision_chain(&["1-aaa".to_string()], false, obj(vec![("x", Value::from(1))]));
    let stored = tree.to_stored().unwrap();
    assert_eq!(stored.nodes.len(), 1);

    let seq = assigned_seq(base.generate_id().unwrap());
    seq_log.insert(seq_key(seq), "only-doc").unwrap();

    let mut raw = Vec::new();
    for entry in seq_log.range(changes_start_key(0).unwrap()..) {
        let (k, v) = entry.unwrap();
        raw.push((k.to_vec(), v.to_vec()));
    }
    let changes = decode_changes(&raw).ok().unwrap();
    assert_eq!(changes.len(), 1, "the first-ever write must be visible to since=0, got: {changes:?}");
    assert_eq!(changes[0].1, "only-doc");
    assert!(changes[0].0 > 0);
}

#[test]
fn digests_are_sha256_hex() {
    assert_eq!(digest_of(b"abc"), "sha256-ba7816bf8f01cfea414140de5dae2223b00361a396177a9cb410ff61f20015ad");
    assert_eq!(content_hash(&obj(vec![])), 0x44136fa355b3678a);
    assert_eq!(content_hash(&obj(vec![("foo", Value::String("bar".into()))])), 0x7a38bf81f383f694);
}

#[test]
fn number_text() {
    assert_eq!(decimal_string(0), "0");
    assert_eq!(decimal_string(1234567890), "1234567890");
    assert_eq!(hex_string(0), "0");
    assert_eq!(hex_string(0xdeadbeef), "deadbeef");
    assert_eq!(parse_u64("18446744073709551615"), Some(u64::MAX));
    assert_eq!(parse_u64("18446744073709551616"), None);
    assert_eq!(parse_u64("+5"), Some(5));
    assert_eq!(parse_u64("+"), None);
    assert_eq!(parse_u64("-0"), None);
    assert_eq!(parse_u64(""), None);
    assert_eq!(parse_u64("007"), Some(7));
}

#[test]
fn revision_chain_from_revisions() {
    let doc = obj(vec![
        ("_rev", Value::String("3-ccc".into())),
        ("_revisions", obj(vec![("start", Value::from(3)), ("ids", Value::Array(vec!["ccc".into(), "bbb".into(), "aaa".into()]))])),
    ]);
    assert_eq!(revision_chain(&doc), Some(vec!["3-ccc".to_string(), "2-bbb".to_string(), "1-aaa".to_string()]));

    let doc = obj(vec![("_rev", Value::String("5-x".into()))]);
    assert_eq!(revision_chain(&doc), Some(vec!["5-x".to_string()]));

    let doc = obj(vec![("foo", Value::from(1))]);
    assert_eq!(revision_chain(&doc), None);

    let doc = obj(vec![
        ("_rev", Value::String("1-a".into())),
        ("_revisions", obj(vec![("start", Value::from(1)), ("ids", Value::Array(vec!["a".into(), Value::from(5), "z".into(), "y".into()]))])),
    ]);
    assert_eq!(revision_chain(&doc), Some(vec!["1-a".to_string()]));

    let doc = obj(vec![("_rev", Value::String("1-a".into())), ("_revisions", obj(vec![("ids", Value::Array(vec![]))]))]);
    assert_eq!(revision_chain(&doc), None);
}

#[test]
fn reads_of_documents() {
    assert_eq!(read_current(None).err(), Some(ReadError::Missing));
    let mut tree = RevTree::default();
    tree.insert_node("1-a".into(), node(None, false));
    let (rev, _) = read_current(Some(&tree)).ok().unwrap();
    assert_eq!(rev, "1-a");
    tree.insert_node("2-b".into(), node(Some("1-a"), true));
    assert_eq!(read_current(Some(&tree)).err(), Some(ReadError::Deleted));
    assert_eq!(ReadError::Deleted.reason(), "deleted");

    let (rev, _) = read_revision(Some(&tree), Some(&"1-a".to_string())).ok().unwrap();
    assert_eq!(rev, "1-a");
    assert_eq!(read_revision(Some(&tree), None).err(), Some((Some("2-b".to_string()), ReadError::Deleted)));
    assert_eq!(read_revision(Some(&tree), Some(&"9-z".to_string())).err(), Some((Some("9-z".to_string()), ReadError::Missing)));
    assert_eq!(read_revision(None, None).err(), Some((None, ReadError::Missing)));

    let (revs, deleted) = change_revs(&tree, false).unwrap();
    assert_eq!(revs, vec![&"2-b".to_string()]);
    assert!(deleted);
    assert!(change_revs(&RevTree::default(), true).is_none());
}

#[test]
fn http_error_shapes() {
    assert_eq!(error_name_for_status(404), "not_found");
    assert_eq!(error_name_for_status(405), "method_not_allowed");
    assert_eq!(error_name_for_status(503), "internal_error");
    assert_eq!(error_name_for_status(415), "bad_request");
    assert_eq!(reason_from_status_text(Some("Unsupported Media Type")), "unsupported_media_type");
    assert_eq!(reason_from_status_text(None), "error");
    assert_eq!(tree_name("mydb", "docs"), "mydb::docs");
    assert_eq!(local_doc_id("cp"), "_local/cp");
    assert_eq!(WriteError::MissingRev.reason(), "missing _rev");
    assert_eq!(WriteError::WriteFailed.error_name(), "internal_error");
    assert_eq!(WriteError::InvalidAttachment.error_name(), "bad_request");
    assert_eq!(WriteError::WriteFailed.status(), 500);
}

#[test]
fn replicated_write_reads_chain_and_tombstone_flag() {
    let doc = obj(vec![("_rev", Value::String("2-b".into())), ("_deleted", Value::Bool(true))]);
    assert_eq!(replicated_write(&doc).ok(), Some((vec!["2-b".to_string()], true)));
    let doc = obj(vec![("_rev", Value::String("2-b".into())), ("_deleted", Value::String("yes".into()))]);
    assert_eq!(replicated_write(&doc).ok(), Some((vec!["2-b".to_string()], false)));
    let doc = obj(vec![("_deleted", Value::Bool(true))]);
    assert_eq!(replicated_write(&doc).err(), Some(WriteError::MissingRev));
}

#[test]
fn replicated_write_refuses_an_empty_chain() {
    let doc = obj(vec![
        ("_id", Value::String("x".into())),
        ("_rev", Value::String("1-a".into())),
        ("_revisions", obj(vec![("start", Value::from(1)), ("ids", Value::Array(vec![]))])),
    ]);
    assert_eq!(replicated_write(&doc).err(), Some(WriteError::MissingRev));
    let doc = obj(vec![
        ("_id", Value::String("x".into())),
        ("_rev", Value::String("1-a".into())),
        ("_revisions", obj(vec![("start", Value::from(1)), ("ids", Value::Array(vec![Value::from(7), Value::Null]))])),
    ]);
    assert_eq!(replicated_write(&doc).err(), Some(WriteError::MissingRev));
    let doc = obj(vec![
        ("_rev", Value::String("2-b".into())),
        ("_revisions", obj(vec![("start", Value::from(2)), ("ids", Value::Array(vec!["b".into(), "a".into()]))])),
    ]);
    assert_eq!(replicated_write(&doc).ok(), Some((vec!["2-b".to_string(), "1-a".to_string()], false)));
}

#[test]
fn replicated_body_drops_the_revision_fields() {
    let doc = obj(vec![
        ("_id", Value::String("x".into())),
        ("_rev", Value::String("1-a".into())),
        ("_revisions", obj(vec![])),
        ("_deleted", Value::Bool(false)),
        ("keep", Value::from(3)),
    ]);
    assert_eq!(replicated_body(&doc), obj(vec![("keep", Value::from(3))]));
    assert_eq!(replicated_body(&Value::from(5)), Value::from(5));
}

#[test]
fn bulk_docs_take_their_id_or_a_drawn_one() {
    let doc = obj(vec![("_id", Value::String("a".into())), ("_rev", Value::String("1-x".into())), ("v", Value::from(1))]);
    let (id, body) = bulk_doc_identity(&doc, "drawn".to_string());
    assert_eq!(id, "a");
    assert_eq!(body, obj(vec![("v", Value::from(1))]));
    let (id, body) = bulk_doc_identity(&obj(vec![("v", Value::from(2))]), "drawn".to_string());
    assert_eq!(id, "drawn");
    assert_eq!(body, obj(vec![("v", Value::from(2))]));
    let (id, _) = bulk_doc_identity(&obj(vec![("_id", Value::from(9))]), "drawn".to_string());
    assert_eq!(id, "drawn");
}

#[test]
fn seq_log_runs_decode_in_order() {
    let raw = vec![(seq_key(3), b"a".to_vec()), (seq_key(8), b"b".to_vec())];
    assert_eq!(decode_changes(&raw).ok(), Some(vec![(3, "a".to_string()), (8, "b".to_string())]));
    assert_eq!(decode_changes(&vec![]).ok(), Some(vec![]));
    let bad = vec![(seq_key(3), b"a".to_vec()), (vec![1, 2], b"b".to_vec())];
    assert!(matches!(decode_changes(&bad), Err(StorageError::Corrupt(_))));
}

#[test]
fn dedupe_is_idempotent_and_ignores_order() {
    let entries = vec![
        (1, "a".to_string()),
        (2, "b".to_string()),
        (3, "a".to_string()),
        (4, "c".to_string()),
        (5, "b".to_string()),
    ];
    let once = dedupe_latest(entries.clone());
    assert_eq!(dedupe_latest(once.clone()), once);
    let mut shuffled = entries.clone();
    shuffled.reverse();
    shuffled.swap(0, 2);
    assert_eq!(dedupe_latest(shuffled), once);
}
