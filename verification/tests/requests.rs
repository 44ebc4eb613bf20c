use couchdb_clone::api::{error_reason, rewrites_error_body};
use couchdb_clone::changes::{ContinuousFeed, FeedAction, FeedEvent};
use couchdb_clone::documents::{
    array_member, bulk_get_target, bulk_new_edits, revs_list, text_member, with_attachment, with_member, without_attachment,
    without_member,
};
use couchdb_clone::replication::{apply_replicated, replicated_write};
use couchdb_clone::text::starts_with_text;
use serde_json::Value;

fn obj(pairs: Vec<(&str, Value)>) -> Value {
    let mut m = serde_json::Map::new();
    for (k, v) in pairs {
        m.insert(k.to_string(), v);
    }
    Value::Object(m)
}

#[test]
fn replaying_a_replicated_push_changes_nothing() {
    let doc = obj(vec![
        ("_id", Value::String("x".into())),
        ("_rev", Value::String("2-b".into())),
        ("_revisions", obj(vec![("start", Value::from(2)), ("ids", Value::Array(vec!["b".into(), "a".into()]))])),
        ("v", Value::from(1)),
    ]);
    let (chain, deleted) = replicated_write(&doc).ok().unwrap();
    let once = apply_replicated(None, &chain, deleted, obj(vec![("v", Value::from(1))]));
    assert_eq!(once.len(), 2);
    let twice = apply_replicated(Some(once.clone()), &chain, true, obj(vec![("v", Value::from(2))]));
    assert_eq!(twice.len(), 2);
    for rev in ["2-b", "1-a"] {
        let (a, b) = (once.get(rev).unwrap(), twice.get(rev).unwrap());
        assert_eq!((&a.parent, a.deleted, &a.body), (&b.parent, b.deleted, &b.body));
    }
    assert_eq!(once.get("1-a").unwrap().body, obj(vec![]));
}

#[test]
fn which_error_bodies_are_rewritten() {
    assert!(rewrites_error_body(404, None));
    assert!(rewrites_error_body(500, Some("text/plain")));
    assert!(!rewrites_error_body(404, Some("application/json")));
    assert!(!rewrites_error_body(400, Some("application/json; charset=utf-8")));
    assert!(!rewrites_error_body(200, None));
    assert!(!rewrites_error_body(399, None));
    assert!(rewrites_error_body(599, Some("application/jso")));
    assert!(!rewrites_error_body(600, None));
    assert_eq!(error_reason("", Some("Not Found")), "not_found");
    assert_eq!(error_reason("", None), "error");
    assert_eq!(error_reason("bad thing", Some("Not Found")), "bad thing");
    assert!(starts_with_text("abc", "ab"));
    assert!(starts_with_text("abc", ""));
    assert!(!starts_with_text("ab", "abc"));
    assert!(!starts_with_text("xbc", "ab"));
}

#[test]
fn continuous_feed_steps() {
    let mut feed = ContinuousFeed::start(0, vec![(1, "a".to_string()), (2, "b".to_string()), (3, "a".to_string())]);
    assert!(matches!(feed.step(FeedEvent::Next), FeedAction::Emit(2, ref id) if id == "b"));
    assert!(matches!(feed.step(FeedEvent::Sent(2)), FeedAction::Continue));
    assert!(matches!(feed.step(FeedEvent::Next), FeedAction::Emit(3, ref id) if id == "a"));
    assert!(matches!(feed.step(FeedEvent::Sent(3)), FeedAction::Continue));
    assert!(matches!(feed.step(FeedEvent::Next), FeedAction::Receive));
    assert!(matches!(feed.step(FeedEvent::Live(3, "a".to_string())), FeedAction::Continue));
    assert!(matches!(feed.step(FeedEvent::Live(4, "c".to_string())), FeedAction::Emit(4, ref id) if id == "c"));
    assert!(matches!(feed.step(FeedEvent::Sent(4)), FeedAction::Continue));
    assert!(matches!(feed.step(FeedEvent::Lagged), FeedAction::Reread(4)));
    assert!(matches!(feed.step(FeedEvent::Reread(vec![(5, "d".to_string()), (6, "d".to_string())])), FeedAction::Continue));
    assert!(matches!(feed.step(FeedEvent::Next), FeedAction::Emit(6, ref id) if id == "d"));
    assert!(matches!(feed.step(FeedEvent::Next), FeedAction::Receive));
    assert!(matches!(feed.step(FeedEvent::Closed), FeedAction::Stop));
}

#[test]
fn body_members_are_set_and_removed() {
    let body = obj(vec![("a", Value::from(1))]);
    assert_eq!(with_member(&body, "_id", Value::String("x".into())), Some(obj(vec![("a", Value::from(1)), ("_id", Value::String("x".into()))])));
    assert_eq!(with_member(&Value::Null, "_id", Value::from(2)), Some(obj(vec![("_id", Value::from(2))])));
    assert_eq!(with_member(&Value::from(3), "_id", Value::from(2)), None);
    assert_eq!(without_member(&obj(vec![("_id", Value::from(1)), ("b", Value::from(2))]), "_id"), obj(vec![("b", Value::from(2))]));
    assert_eq!(without_member(&Value::from(3), "_id"), Value::from(3));
    assert_eq!(text_member(&obj(vec![("k", Value::String("v".into()))]), "k"), Some("v".to_string()));
    assert_eq!(text_member(&obj(vec![("k", Value::from(1))]), "k"), None);
}

#[test]
fn attachment_stubs_are_added_and_deleted() {
    let stub = obj(vec![("stub", Value::Bool(true))]);
    let body = obj(vec![("v", Value::from(1))]);
    let with = with_attachment(&body, "f", stub.clone()).unwrap();
    assert_eq!(with, obj(vec![("v", Value::from(1)), ("_attachments", obj(vec![("f", stub.clone())]))]));
    let two = with_attachment(&with, "g", stub.clone()).unwrap();
    assert_eq!(two, obj(vec![("v", Value::from(1)), ("_attachments", obj(vec![("f", stub.clone()), ("g", stub.clone())]))]));
    assert_eq!(
        with_attachment(&obj(vec![("_attachments", Value::Null)]), "f", stub.clone()),
        Some(obj(vec![("_attachments", obj(vec![("f", stub.clone())]))]))
    );
    assert_eq!(with_attachment(&obj(vec![("_attachments", Value::from(1))]), "f", stub.clone()), None);
    assert_eq!(with_attachment(&Value::Array(vec![]), "f", stub.clone()), None);

    assert_eq!(without_attachment(&two, "g"), Some(with.clone()));
    assert_eq!(without_attachment(&two, "h"), None);
    assert_eq!(without_attachment(&body, "f"), None);
}

#[test]
fn request_payloads_are_read() {
    let payload = obj(vec![("docs", Value::Array(vec![Value::from(1), Value::from(2)])), ("new_edits", Value::Bool(false))]);
    assert_eq!(array_member(&payload, "docs"), Some(vec![Value::from(1), Value::from(2)]));
    assert_eq!(array_member(&obj(vec![("docs", Value::from(1))]), "docs"), None);
    assert!(!bulk_new_edits(&payload));
    assert!(bulk_new_edits(&obj(vec![])));
    assert!(bulk_new_edits(&obj(vec![("new_edits", Value::String("no".into()))])));
    assert_eq!(revs_list(&Value::Array(vec!["1-a".into(), Value::from(3), "2-b".into()])), vec!["1-a".to_string(), "2-b".to_string()]);
    assert_eq!(revs_list(&Value::from(3)), Vec::<String>::new());
    assert_eq!(
        bulk_get_target(&obj(vec![("id", Value::String("d".into())), ("rev", Value::String("1-a".into()))])),
        Some(("d".to_string(), Some("1-a".to_string())))
    );
    assert_eq!(bulk_get_target(&obj(vec![("id", Value::String("d".into()))])), Some(("d".to_string(), None)));
    assert_eq!(bulk_get_target(&obj(vec![("rev", Value::String("1-a".into()))])), None);
}
