use hellodb::branch::{Branch, BranchState};
use hellodb::crypto::identity::KeyPair;
use hellodb::error::StorageError;
use hellodb::json::JsonValue;
use hellodb::record::Record;
use hellodb::storage::layers::{first_in_rows, plan_merge, visible_in_rows, StoredRow};
use hellodb::sync::memory_backend::keys_with_prefix;

fn rec(kp: &KeyPair, schema: &str, ts: u64) -> Record {
    Record::new_with_timestamp(
        &kp.signing,
        schema.into(),
        "ns".into(),
        JsonValue::object(vec![("t".to_string(), JsonValue::uint(ts))]),
        None,
        ts,
    )
    .unwrap()
}

fn row(r: &Record) -> StoredRow {
    StoredRow { record_id: r.record_id.clone(), record: Some(r.clone()) }
}

fn tomb(id: &str) -> StoredRow {
    StoredRow { record_id: id.to_string(), record: None }
}

#[test]
fn rows_of_a_branch_shadow_its_ancestors() {
    let kp = KeyPair::generate();
    let a = rec(&kp, "s", 10);
    let b = rec(&kp, "s", 20);
    let c = rec(&kp, "s", 30);
    // child: deletes a; parent: a, b, c
    let rows = vec![tomb(&a.record_id), row(&a), row(&b), row(&c)];
    let seen = visible_in_rows(&rows, None, Some("ns"), usize::MAX, 0);
    let ids: Vec<&str> = seen.iter().map(|r| r.record_id.as_str()).collect();
    assert_eq!(ids, vec![c.record_id.as_str(), b.record_id.as_str()]);
    let page = visible_in_rows(&rows, None, None, 1, 1);
    assert_eq!(page.len(), 1);
    assert_eq!(page[0].record_id, b.record_id);
    assert!(visible_in_rows(&rows, None, None, 5, 9).is_empty());
}

#[test]
fn out_of_scope_versions_do_not_hide_later_ones() {
    let kp = KeyPair::generate();
    let x = rec(&kp, "other", 5);
    let y = rec(&kp, "s", 6);
    // a version of y's ID in another schema comes first
    let mut shadow = row(&x);
    shadow.record_id = y.record_id.clone();
    let rows = vec![shadow, row(&y)];
    let seen = visible_in_rows(&rows, Some("s"), None, 10, 0);
    assert_eq!(seen.len(), 1);
    assert_eq!(seen[0].record_id, y.record_id);
}

#[test]
fn first_row_decides_a_lookup() {
    let kp = KeyPair::generate();
    let a = rec(&kp, "s", 1);
    let rows = vec![tomb(&a.record_id), row(&a)];
    assert!(first_in_rows(&rows, &a.record_id).is_none());
    let rows = vec![row(&a), tomb(&a.record_id)];
    assert_eq!(first_in_rows(&rows, &a.record_id).unwrap().record_id, a.record_id);
    assert!(first_in_rows(&rows, "missing").is_none());
}

#[test]
fn merge_plans() {
    let main = Branch::main("ns".into());
    let mut draft = Branch::new("ns/d".into(), "ns".into(), main.id.clone(), "d".into());
    draft.add_change("r1".into());
    draft.add_change("r2".into());
    let plan = plan_merge(&draft, Some(&main)).unwrap();
    assert_eq!(plan.merged_records, vec!["r1".to_string(), "r2".to_string()]);
    assert!(plan.conflicts.is_empty());

    assert!(matches!(plan_merge(&draft, None), Err(StorageError::BranchNotFound(m)) if m == "ns/main"));
    assert!(matches!(plan_merge(&main, None), Err(StorageError::BranchNotFound(m)) if m == "cannot merge main branch"));

    let mut busy_main = Branch::main("ns".into());
    busy_main.add_change("r2".into());
    let conflicted = plan_merge(&draft, Some(&busy_main)).unwrap();
    assert!(conflicted.merged_records.is_empty());
    assert_eq!(conflicted.conflicts.len(), 1);
    assert_eq!(conflicted.conflicts[0].record_id, "r2");
    assert_eq!(conflicted.conflicts[0].description, "record r2 modified on both ns/d and ns/main");

    draft.mark_merged();
    assert_eq!(draft.state, BranchState::Merged);
    assert!(matches!(plan_merge(&draft, Some(&main)), Err(StorageError::BranchNotActive(m)) if m == "ns/d"));
}

#[test]
fn keys_with_prefix_sorts_and_dedups() {
    let keys: Vec<String> = vec!["b/2", "a/1", "b/1", "b/2", "c"].into_iter().map(String::from).collect();
    assert_eq!(keys_with_prefix(&keys, "b/"), vec!["b/1".to_string(), "b/2".to_string()]);
    assert_eq!(keys_with_prefix(&keys, "").len(), 4);
}
