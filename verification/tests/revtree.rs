use couchdb_clone::revtree::{split_rev, RevNode, RevTree};
use couchdb_clone::storage::{StoredNode, StoredTree};
use serde_json::Value;

fn empty_body() -> Value {
    Value::Object(serde_json::Map::new())
}

fn body_with(key: &str, value: Value) -> Value {
    let mut m = serde_json::Map::new();
    m.insert(key.to_string(), value);
    Value::Object(m)
}

fn node(parent: Option<&str>) -> RevNode {
    RevNode { parent: parent.map(String::from), deleted: false, body: empty_body() }
}

#[test]
fn single_linear_history_winner_is_the_leaf() {
    let mut tree = RevTree::default();
    tree.insert_node("1-aaa".into(), node(None));
    tree.insert_node("2-bbb".into(), node(Some("1-aaa")));
    assert_eq!(tree.winner(), Some(&"2-bbb".to_string()));
}

#[test]
fn conflict_picks_highest_generation_then_hash() {
    let mut tree = RevTree::default();
    tree.insert_node("1-aaa".into(), node(None));
    tree.insert_node("2-bbb".into(), node(Some("1-aaa")));
    tree.insert_node("3-ccc".into(), node(Some("2-bbb")));
    tree.insert_node("3-ddd".into(), node(Some("2-bbb")));
    assert_eq!(tree.winner(), Some(&"3-ddd".to_string()));
    assert_eq!(tree.conflicts(), vec!["3-ccc".to_string()]);
}

#[test]
fn unequal_depth_branches_deeper_generation_wins_even_with_lower_hash() {
    let mut tree = RevTree::default();
    tree.insert_node("1-aaa".into(), node(None));
    tree.insert_node("2-zzz".into(), node(Some("1-aaa")));
    tree.insert_node("2-bbb".into(), node(Some("1-aaa")));
    tree.insert_node("3-aaa".into(), node(Some("2-bbb")));
    assert_eq!(tree.winner(), Some(&"3-aaa".to_string()));
    assert_eq!(tree.conflicts(), vec!["2-zzz".to_string()]);
}

#[test]
fn resolved_conflict_deleted_branch_excluded_from_conflicts_but_not_pruned() {
    let mut tree = RevTree::default();
    tree.insert_node("1-aaa".into(), node(None));
    tree.insert_node("2-bbb".into(), node(Some("1-aaa")));
    tree.insert_node("3-ccc".into(), node(Some("2-bbb")));
    tree.insert_node("3-ddd".into(), node(Some("2-bbb")));
    let mut deleted_tombstone = node(Some("3-ccc"));
    deleted_tombstone.deleted = true;
    tree.insert_node("4-eee".into(), deleted_tombstone);

    assert_eq!(tree.winner(), Some(&"3-ddd".to_string()));
    assert!(tree.conflicts().is_empty());
    assert!(tree.contains_key("3-ccc"));
    assert!(tree.contains_key("4-eee"));
}

#[test]
fn fully_deleted_document_winner_falls_back_to_tombstone() {
    let mut tree = RevTree::default();
    tree.insert_node("1-aaa".into(), node(None));
    let mut tombstone = node(Some("1-aaa"));
    tombstone.deleted = true;
    tree.insert_node("2-bbb".into(), tombstone);

    assert_eq!(tree.winner(), Some(&"2-bbb".to_string()));
    assert!(tree.get(tree.winner().unwrap()).unwrap().deleted);
}

#[test]
fn recreating_a_deleted_document_continues_the_branch_and_undeletes() {
    let mut tree = RevTree::default();
    tree.insert_node("1-aaa".into(), node(None));
    let mut tombstone = node(Some("1-aaa"));
    tombstone.deleted = true;
    tree.insert_node("2-bbb".into(), tombstone);
    tree.insert_node("3-ccc".into(), node(Some("2-bbb")));

    assert_eq!(tree.winner(), Some(&"3-ccc".to_string()));
    assert!(!tree.get(tree.winner().unwrap()).unwrap().deleted);
    assert!(tree.conflicts().is_empty());
}

#[test]
fn deep_branches_winner_and_conflicts_still_correct() {
    let mut tree = RevTree::default();
    tree.insert_node("1-aaa".into(), node(None));
    tree.insert_node("2-aaa".into(), node(Some("1-aaa")));
    tree.insert_node("3-aaa".into(), node(Some("2-aaa")));
    tree.insert_node("4-aaa".into(), node(Some("3-aaa")));
    tree.insert_node("5-aaa".into(), node(Some("4-aaa")));
    tree.insert_node("3-bbb".into(), node(Some("2-aaa")));
    tree.insert_node("4-bbb".into(), node(Some("3-bbb")));

    assert_eq!(tree.winner(), Some(&"5-aaa".to_string()));
    assert_eq!(tree.conflicts(), vec!["4-bbb".to_string()]);
}

#[test]
fn missing_reports_only_revs_not_already_stored() {
    let mut tree = RevTree::default();
    tree.insert_node("1-aaa".into(), node(None));
    tree.insert_node("2-bbb".into(), node(Some("1-aaa")));

    let requested = vec!["1-aaa".to_string(), "2-bbb".to_string(), "2-ccc".to_string()];
    assert_eq!(tree.missing(&requested), vec![&"2-ccc".to_string()]);
}

#[test]
fn missing_against_unknown_document_reports_everything_requested() {
    let tree = RevTree::default();
    let requested = vec!["1-aaa".to_string(), "1-bbb".to_string()];
    assert_eq!(tree.missing(&requested), vec![&"1-aaa".to_string(), &"1-bbb".to_string()]);
}

#[test]
fn insert_revision_chain_builds_full_ancestry_from_scratch() {
    let mut tree = RevTree::default();
    let chain = vec!["3-ccc".to_string(), "2-bbb".to_string(), "1-aaa".to_string()];
    tree.insert_revision_chain(&chain, false, body_with("foo", Value::String("bar".into())));

    assert_eq!(tree.len(), 3);
    assert_eq!(tree.get("3-ccc").unwrap().parent, Some("2-bbb".to_string()));
    assert_eq!(tree.get("2-bbb").unwrap().parent, Some("1-aaa".to_string()));
    assert_eq!(tree.get("1-aaa").unwrap().parent, None);
    assert_eq!(tree.winner(), Some(&"3-ccc".to_string()));
    assert_eq!(tree.get("3-ccc").unwrap().body, body_with("foo", Value::String("bar".into())));
}

#[test]
fn insert_revision_chain_connects_to_existing_history_without_duplicating() {
    let mut tree = RevTree::default();
    tree.insert_node("1-aaa".into(), node(None));
    let chain = vec!["2-bbb".to_string(), "1-aaa".to_string()];
    tree.insert_revision_chain(&chain, false, body_with("foo", Value::String("bar".into())));

    assert_eq!(tree.len(), 2);
    assert_eq!(tree.get("2-bbb").unwrap().parent, Some("1-aaa".to_string()));
    assert_eq!(tree.winner(), Some(&"2-bbb".to_string()));
}

#[test]
fn insert_revision_chain_is_idempotent_and_never_clobbers_existing_nodes() {
    let mut tree = RevTree::default();
    let chain = vec!["2-bbb".to_string(), "1-aaa".to_string()];
    tree.insert_revision_chain(&chain, false, body_with("foo", Value::String("bar".into())));
    tree.insert_revision_chain(&chain, false, body_with("foo", Value::String("bar".into())));
    assert_eq!(tree.len(), 2);

    let mut tombstoned = RevTree::default();
    let mut tombstone = node(None);
    tombstone.deleted = true;
    tombstoned.insert_node("1-aaa".into(), tombstone);
    tombstoned.insert_revision_chain(&["1-aaa".to_string()], false, body_with("resurrected", Value::Bool(true)));
    assert!(tombstoned.get("1-aaa").unwrap().deleted);
}

#[test]
fn insert_revision_chain_diverging_from_shared_ancestor_creates_conflict() {
    let mut tree = RevTree::default();
    tree.insert_node("1-aaa".into(), node(None));
    tree.insert_revision_chain(
        &["2-bbb".to_string(), "1-aaa".to_string()],
        false,
        body_with("device", Value::String("A".into())),
    );
    tree.insert_revision_chain(
        &["2-ccc".to_string(), "1-aaa".to_string()],
        false,
        body_with("device", Value::String("B".into())),
    );

    assert_eq!(tree.len(), 3);
    let mut leaves: Vec<&String> = tree.leaves();
    leaves.sort();
    assert_eq!(leaves, vec![&"2-bbb".to_string(), &"2-ccc".to_string()]);
    assert_eq!(tree.conflicts().len(), 1);
}

#[test]
fn insert_revision_chain_marks_leaf_deleted() {
    let mut tree = RevTree::default();
    tree.insert_node("1-aaa".into(), node(None));
    tree.insert_revision_chain(&["2-bbb".to_string(), "1-aaa".to_string()], true, empty_body());
    assert!(tree.get("2-bbb").unwrap().deleted);
}

#[test]
fn pouchdb_conflict_resolution_1_same_generation_lexicographic_tiebreak() {
    let mut tree = RevTree::default();
    tree.insert_node("1-a".into(), node(None));
    tree.insert_node("1-b".into(), node(None));
    tree.insert_node("1-1".into(), node(None));
    assert_eq!(tree.winner(), Some(&"1-b".to_string()));
}

#[test]
fn pouchdb_conflict_resolution_2_generation_beats_hash() {
    let mut tree = RevTree::default();
    tree.insert_node("2-a".into(), node(None));
    tree.insert_node("1-b".into(), node(None));
    assert_eq!(tree.winner(), Some(&"2-a".to_string()));
}

#[test]
fn pouchdb_conflict_resolution_3_generation_compares_numerically_not_lexically() {
    let mut tree = RevTree::default();
    tree.insert_node("10-a".into(), node(None));
    tree.insert_node("2-b".into(), node(None));
    assert_eq!(tree.winner(), Some(&"10-a".to_string()));
}

#[test]
fn pouchdb_conflict_resolution_4_deleted_branch_loses_to_shorter_live_branch() {
    let mut tree = RevTree::default();
    tree.insert_node("1-a1".into(), node(None));
    tree.insert_node("2-a2".into(), node(Some("1-a1")));
    let mut tombstone = node(Some("2-a2"));
    tombstone.deleted = true;
    tree.insert_node("3-a3".into(), tombstone);
    tree.insert_node("1-b1".into(), node(None));
    assert_eq!(tree.winner(), Some(&"1-b1".to_string()));
}

#[test]
fn pouchdb_conflict_resolution_5_single_live_leaf_beats_deleted_leaves() {
    let mut tree = RevTree::default();
    tree.insert_node("2-a2".into(), node(None));
    let mut deleted_b = node(None);
    deleted_b.deleted = true;
    tree.insert_node("1-b1".into(), deleted_b);
    let mut deleted_c = node(None);
    deleted_c.deleted = true;
    tree.insert_node("1-c1".into(), deleted_c);
    assert_eq!(tree.winner(), Some(&"2-a2".to_string()));
}

#[test]
fn split_rev_reads_generation_and_hash() {
    assert_eq!(split_rev("12-abc"), (12, "abc"));
    assert_eq!(split_rev("3-a-b"), (3, "a-b"));
    assert_eq!(split_rev("x-abc"), (0, "abc"));
    assert_eq!(split_rev("nodash"), (0, "nodash"));
    assert_eq!(split_rev("+7-h"), (7, "h"));
    assert_eq!(split_rev("18446744073709551616-h"), (0, "h"));
}

#[test]
fn winner_of_empty_tree_is_none_and_no_conflicts() {
    let tree = RevTree::default();
    assert_eq!(tree.winner(), None);
    assert!(tree.conflicts().is_empty());
    assert!(tree.leaves().is_empty());
}

#[test]
fn apply_edit_builds_on_winner_and_reads_back() {
    let mut tree = RevTree::default();
    tree.insert_node("1-aaa".into(), node(None));
    let body = body_with("x", Value::from(1));
    let rev = tree.apply_edit(0xab, body.clone());
    assert_eq!(rev, "2-ab");
    assert_eq!(tree.winner(), Some(&"2-ab".to_string()));
    assert_eq!(tree.get("2-ab").unwrap().parent, Some("1-aaa".to_string()));
    assert_eq!(tree.get("2-ab").unwrap().body, body);

    let mut fresh = RevTree::default();
    assert_eq!(fresh.apply_edit(0, empty_body()), "1-0");
}

#[test]
fn apply_edit_on_tombstone_recreates_document() {
    let mut tree = RevTree::default();
    let mut tombstone = node(None);
    tombstone.deleted = true;
    tree.insert_node("1-aaa".into(), tombstone);
    let rev = tree.apply_edit(0xff, empty_body());
    assert_eq!(rev, "2-ff");
    assert!(!tree.get(tree.winner().unwrap()).unwrap().deleted);
}

#[test]
fn conflicts_exclude_winner_and_tombstones() {
    let mut tree = RevTree::default();
    tree.insert_node("1-a".into(), node(None));
    tree.insert_node("2-b".into(), node(Some("1-a")));
    tree.insert_node("2-c".into(), node(Some("1-a")));
    let mut dead = node(Some("1-a"));
    dead.deleted = true;
    tree.insert_node("2-z".into(), dead);
    assert_eq!(tree.winner(), Some(&"2-c".to_string()));
    assert_eq!(tree.conflicts(), vec!["2-b".to_string()]);
}

#[test]
fn stored_form_round_trips() {
    let mut tree = RevTree::default();
    tree.insert_node("1-a".into(), node(None));
    let mut n = node(Some("1-a"));
    n.body = body_with("k", Value::String("v".into()));
    tree.insert_node("2-b".into(), n);
    let stored = tree.to_stored().unwrap();
    assert_eq!(stored.nodes.len(), 2);
    let back = RevTree::from_stored(stored).unwrap();
    assert_eq!(back.len(), 2);
    assert_eq!(back.get("2-b").unwrap().body, body_with("k", Value::String("v".into())));
    assert_eq!(back.get("2-b").unwrap().parent, Some("1-a".to_string()));
}

#[test]
fn from_stored_rejects_bad_json_body() {
    let stored = StoredTree { nodes: vec![("1-a".to_string(), StoredNode { parent: None, deleted: false, body: b"{not json".to_vec() })] };
    assert!(RevTree::from_stored(stored).is_err());
}

#[test]
fn pushed_chain_is_no_longer_missing() {
    let mut tree = RevTree::default();
    let chain = vec!["3-c".to_string(), "2-b".to_string(), "1-a".to_string()];
    assert_eq!(tree.missing(&chain).len(), 3);
    tree.insert_revision_chain(&chain, false, empty_body());
    assert!(tree.missing(&chain).is_empty());
}

#[test]
fn pushed_ancestors_get_empty_bodies() {
    let mut tree = RevTree::default();
    let chain = vec!["2-b".to_string(), "1-a".to_string()];
    tree.insert_revision_chain(&chain, false, body_with("foo", Value::String("bar".into())));
    assert_eq!(tree.get("1-a").unwrap().body, empty_body());
    assert!(!tree.get("1-a").unwrap().deleted);
}

#[test]
fn tied_generation_and_hash_still_has_one_winner() {
    let mut tree = RevTree::default();
    tree.insert_node("1-a".into(), node(None));
    tree.insert_node("01-a".into(), node(None));
    let w = tree.winner().unwrap().clone();
    assert!(w == "1-a" || w == "01-a");
    assert_eq!(tree.conflicts().len(), 1);
}

#[test]
fn cloned_tree_is_the_same_tree() {
    let mut tree = RevTree::default();
    tree.insert_node("1-a".into(), node(None));
    tree.insert_node("2-b".into(), node(Some("1-a")));
    let copy = tree.clone();
    assert_eq!(copy.len(), 2);
    assert_eq!(copy.winner(), tree.winner());
    assert_eq!(copy.get("2-b").unwrap().parent, Some("1-a".to_string()));
}

#[test]
fn replicated_ancestors_get_an_empty_body() {
    let mut tree = RevTree::default();
    let chain = vec!["2-bbb".to_string(), "1-aaa".to_string()];
    tree.insert_revision_chain(&chain, true, body_with("foo", Value::String("bar".into())));
    assert_eq!(tree.get("1-aaa").unwrap().body, Value::Object(serde_json::Map::new()));
    assert!(!tree.get("1-aaa").unwrap().deleted);
    assert!(tree.get("2-bbb").unwrap().deleted);
    assert_eq!(tree.get("2-bbb").unwrap().body, body_with("foo", Value::String("bar".into())));
}
