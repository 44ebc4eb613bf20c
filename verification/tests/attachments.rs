use couchdb_clone::attachments::{attachment_stub, decode_inline_attachment, inflate_entry, plan_inline_attachments, stub_digest};
use couchdb_clone::digest::digest_of;
use serde_json::Value;

fn obj(pairs: Vec<(&str, Value)>) -> Value {
    let mut m = serde_json::Map::new();
    for (k, v) in pairs {
        m.insert(k.to_string(), v);
    }
    Value::Object(m)
}

fn stub(content_type: &str, digest: &str, length: u64) -> Value {
    obj(vec![
        ("content_type", Value::String(content_type.into())),
        ("digest", Value::String(digest.into())),
        ("length", Value::from(length)),
        ("stub", Value::Bool(true)),
    ])
}

#[test]
fn inline_data_decodes_to_bytes_and_digest() {
    let (bytes, digest) = decode_inline_attachment("aGVsbG8=").unwrap();
    assert_eq!(bytes, b"hello".to_vec());
    assert_eq!(digest, digest_of(b"hello"));
    assert_eq!(decode_inline_attachment("").unwrap().0, Vec::<u8>::new());
    assert!(decode_inline_attachment("!!!").is_err());
    assert!(decode_inline_attachment("aGVsbG8").is_err());
}

#[test]
fn stubs_have_their_four_members() {
    let s = attachment_stub(Value::String("text/plain".into()), "sha256-x".to_string(), 5);
    assert_eq!(s, stub("text/plain", "sha256-x", 5));
}

#[test]
fn inline_attachments_become_stubs() {
    let atts = obj(vec![
        ("a.txt", obj(vec![("content_type", Value::String("text/plain".into())), ("data", Value::String("aGVsbG8=".into()))])),
        ("b.bin", obj(vec![("data", Value::String("AAE=".into()))])),
        ("c.txt", stub("text/plain", "sha256-old", 3)),
        ("d", Value::from(4)),
    ]);
    let plan = plan_inline_attachments(&atts).unwrap();
    assert_eq!(plan.len(), 2);
    assert_eq!(plan[0].0, "a.txt");
    assert_eq!(plan[0].1, b"hello".to_vec());
    assert_eq!(plan[0].2, stub("text/plain", &digest_of(b"hello"), 5));
    assert_eq!(plan[1].0, "b.bin");
    assert_eq!(plan[1].1, vec![0u8, 1]);
    assert_eq!(plan[1].2, stub("application/octet-stream", &digest_of(&[0, 1]), 2));
    assert_eq!(plan_inline_attachments(&Value::Null).unwrap().len(), 0);
}

#[test]
fn one_bad_attachment_fails_the_whole_plan() {
    let atts = obj(vec![
        ("a.txt", obj(vec![("data", Value::String("aGVsbG8=".into()))])),
        ("b.txt", obj(vec![("data", Value::String("not base64!".into()))])),
        ("c.txt", obj(vec![("data", Value::String("%%%".into()))])),
    ]);
    let (name, why) = plan_inline_attachments(&atts).err().unwrap();
    assert_eq!(name, "b.txt");
    assert!(!why.is_empty());
}

#[test]
fn stubs_inflate_back_to_inline_data() {
    let s = stub("text/plain", "sha256-x", 5);
    assert_eq!(stub_digest(&s), Some("sha256-x".to_string()));
    assert_eq!(stub_digest(&Value::Null), None);
    let inflated = inflate_entry(&s, b"hello");
    assert_eq!(
        inflated,
        obj(vec![
            ("content_type", Value::String("text/plain".into())),
            ("data", Value::String("aGVsbG8=".into())),
            ("digest", Value::String("sha256-x".into())),
            ("length", Value::from(5)),
        ])
    );
    assert_eq!(inflate_entry(&Value::from(1), b"x"), Value::from(1));
}
