use hellodb::branch::{Branch, BranchState};
use hellodb::crypto::identity::KeyPair;
use hellodb::error::StorageError;
use hellodb::json::JsonValue;
use hellodb::namespace::Namespace;
use hellodb::record::Record;
use hellodb::schema::Schema;
use hellodb::storage::engine::StorageEngine;
use hellodb::storage::memory::MemoryEngine;

fn rec(kp: &KeyPair, ts: u64) -> Record {
    Record::new_with_timestamp(
        &kp.signing,
        "ns.s".into(),
        "ns".into(),
        JsonValue::object(vec![("t".to_string(), JsonValue::uint(ts))]),
        None,
        ts,
    )
    .unwrap()
}

fn engine_with_ns(kp: &KeyPair) -> MemoryEngine {
    let mut e = MemoryEngine::new();
    e.create_namespace(Namespace::new("ns".into(), "NS".into(), kp.verifying.clone(), false)).unwrap();
    e
}

#[test]
fn namespace_and_schema_errors() {
    let kp = KeyPair::generate();
    let mut e = engine_with_ns(&kp);
    let again = e.create_namespace(Namespace::new("ns".into(), "NS".into(), kp.verifying.clone(), false));
    assert!(matches!(again, Err(StorageError::NamespaceExists(m)) if m == "ns"));
    let orphan = Schema {
        id: "x.s".into(),
        version: "1".into(),
        namespace: "x".into(),
        name: "S".into(),
        fields: vec![],
        registered_at_ms: 0,
    };
    assert!(matches!(e.register_schema(orphan), Err(StorageError::NamespaceNotFound(m)) if m == "x"));
    let lost = Branch::new("ns/b".into(), "ns".into(), "ns/nowhere".into(), "b".into());
    assert!(matches!(e.create_branch(lost), Err(StorageError::BranchNotFound(m)) if m == "ns/nowhere"));
    assert!(e.get_branch("ns/main").unwrap().is_some());
}

#[test]
fn read_your_write_and_deletion() {
    let kp = KeyPair::generate();
    let mut e = engine_with_ns(&kp);
    let r = rec(&kp, 7);
    e.put_record(r.clone(), "ns/main").unwrap();
    assert_eq!(e.get_record(&r.record_id, "ns/main").unwrap().unwrap().record_id, r.record_id);
    assert!(e.has_record(&r.record_id, "ns/main").unwrap());
    e.delete_record(&r.record_id, "ns/main").unwrap();
    assert!(e.get_record(&r.record_id, "ns/main").unwrap().is_none());
    // a deletion keeps hiding the ID on its branch, even after a new write
    e.put_record(r.clone(), "ns/main").unwrap();
    assert!(e.get_record(&r.record_id, "ns/main").unwrap().is_none());
    assert!(matches!(e.put_record(r.clone(), "ns/none"), Err(StorageError::BranchNotFound(_))));
}

#[test]
fn merge_moves_records_and_reports_conflicts() {
    let kp = KeyPair::generate();
    let mut e = engine_with_ns(&kp);
    let base = rec(&kp, 1);
    e.put_record(base.clone(), "ns/main").unwrap();
    let draft = Branch::new("ns/d".into(), "ns".into(), "ns/main".into(), "d".into());
    e.create_branch(draft).unwrap();
    let r1 = rec(&kp, 2);
    e.put_record(r1.clone(), "ns/d").unwrap();
    e.delete_record(&base.record_id, "ns/d").unwrap();
    assert_eq!(e.list_records_by_namespace("ns", "ns/d", 10, 0).unwrap().len(), 1);
    assert_eq!(e.list_records_by_namespace("ns", "ns/main", 10, 0).unwrap().len(), 1);
    let tail_before = e.tail_records("ns", 0, 100, None).unwrap().len();
    // base was changed on main too: the merge reports the conflict and
    // changes nothing
    let conflicted = e.merge_branch("ns/d").unwrap();
    assert!(conflicted.merged_records.is_empty());
    assert_eq!(conflicted.conflicts.len(), 1);
    assert_eq!(conflicted.conflicts[0].record_id, base.record_id);
    assert_eq!(e.get_branch("ns/d").unwrap().unwrap().state, BranchState::Active);
    assert!(e.get_record(&r1.record_id, "ns/main").unwrap().is_none());
    assert!(e.get_record(&base.record_id, "ns/main").unwrap().is_some());
    assert!(e.get_record(&base.record_id, "ns/d").unwrap().is_none());
    let draft2 = Branch::new("ns/d2".into(), "ns".into(), "ns/main".into(), "d2".into());
    e.create_branch(draft2).unwrap();
    let r2 = rec(&kp, 3);
    e.put_record(r2.clone(), "ns/d2").unwrap();
    let result = e.merge_branch("ns/d2").unwrap();
    assert_eq!(result.merged_records, vec![r2.record_id.clone()]);
    assert_eq!(e.get_branch("ns/d2").unwrap().unwrap().state, BranchState::Merged);
    assert!(e.get_record(&r2.record_id, "ns/main").unwrap().is_some());
    assert!(matches!(e.merge_branch("ns/d2"), Err(StorageError::BranchNotActive(_))));
    assert!(matches!(e.merge_branch("ns/main"), Err(StorageError::BranchNotFound(m)) if m == "cannot merge main branch"));
    // merging writes nothing to the log, and a moved record leaves the
    // tail of the branch it was written on
    assert_eq!(e.tail_records("ns", 0, 100, None).unwrap().len(), tail_before);
    assert_eq!(e.count_records_by_schema("ns.s", "ns/main").unwrap(), 2);
}

#[test]
fn tail_follows_the_write_log() {
    let kp = KeyPair::generate();
    let mut e = engine_with_ns(&kp);
    let draft = Branch::new("ns/d".into(), "ns".into(), "ns/main".into(), "d".into());
    e.create_branch(draft).unwrap();
    let a = rec(&kp, 1);
    let b = rec(&kp, 2);
    let c = rec(&kp, 3);
    e.put_record(a.clone(), "ns/main").unwrap();
    e.put_record(b.clone(), "ns/d").unwrap();
    e.put_record(c.clone(), "ns/main").unwrap();
    let all = e.tail_records("ns", 0, 10, None).unwrap();
    let seqs: Vec<u64> = all.iter().map(|t| t.seq).collect();
    assert_eq!(seqs, vec![1, 2, 3]);
    let main_only = e.tail_records("ns", 0, 10, Some("ns/main")).unwrap();
    assert_eq!(main_only.len(), 2);
    assert_eq!(main_only[1].record.record_id, c.record_id);
    let after = e.tail_records("ns", 1, 10, None).unwrap();
    assert_eq!(after[0].seq, 2);
    assert!(e.tail_records("ns", 0, 0, None).unwrap().is_empty());
    assert_eq!(e.tail_records("ns", 0, 1, None).unwrap().len(), 1);
    e.delete_record(&a.record_id, "ns/main").unwrap();
    assert_eq!(e.tail_records("ns", 0, 10, Some("ns/main")).unwrap().len(), 1);
    assert!(e.tail_records("other", 0, 10, None).unwrap().is_empty());
}

#[test]
fn listing_is_newest_first_with_window() {
    let kp = KeyPair::generate();
    let mut e = engine_with_ns(&kp);
    for ts in [5u64, 9, 1, 7] {
        e.put_record(rec(&kp, ts), "ns/main").unwrap();
    }
    let all = e.list_records_by_schema("ns.s", "ns/main", 10, 0).unwrap();
    let times: Vec<u64> = all.iter().map(|r| r.created_at_ms).collect();
    assert_eq!(times, vec![9, 7, 5, 1]);
    let page = e.list_records_by_schema("ns.s", "ns/main", 2, 1).unwrap();
    let times: Vec<u64> = page.iter().map(|r| r.created_at_ms).collect();
    assert_eq!(times, vec![7, 5]);
    assert_eq!(e.list_schemas("ns").unwrap().len(), 0);
}

#[test]
fn a_write_is_the_next_tail_entry() {
    let kp = KeyPair::generate();
    let mut e = engine_with_ns(&kp);
    e.put_record(rec(&kp, 1), "ns/main").unwrap();
    e.put_record(rec(&kp, 2), "ns/main").unwrap();
    let last = e.tail_records("ns", 0, 100, None).unwrap().last().unwrap().seq;
    let r = rec(&kp, 3);
    e.put_record(r.clone(), "ns/main").unwrap();
    let tail = e.tail_records("ns", last, 100, None).unwrap();
    assert_eq!(tail.len(), 1);
    assert_eq!(tail[0].seq, last + 1);
    assert_eq!(tail[0].branch, "ns/main");
    assert_eq!(tail[0].record.record_id, r.record_id);
}

#[test]
fn merged_record_reads_from_parent_but_not_branch_store() {
    let kp = KeyPair::generate();
    let mut e = engine_with_ns(&kp);
    let draft = Branch::new("ns/d".into(), "ns".into(), "ns/main".into(), "d".into());
    e.create_branch(draft).unwrap();
    let r = rec(&kp, 7);
    e.put_record(r.clone(), "ns/d").unwrap();
    assert!(e.get_record(&r.record_id, "ns/main").unwrap().is_none());
    e.merge_branch("ns/d").unwrap();
    let got = e.get_record(&r.record_id, "ns/main").unwrap().unwrap();
    assert_eq!(got.record_id, r.record_id);
    assert_eq!(got.created_at_ms, 7);
}

#[test]
fn deleting_on_a_branch_hides_the_parent_version() {
    let kp = KeyPair::generate();
    let mut e = engine_with_ns(&kp);
    let r = rec(&kp, 4);
    e.put_record(r.clone(), "ns/main").unwrap();
    let draft = Branch::new("ns/d".into(), "ns".into(), "ns/main".into(), "d".into());
    e.create_branch(draft).unwrap();
    assert!(e.get_record(&r.record_id, "ns/d").unwrap().is_some());
    e.delete_record(&r.record_id, "ns/d").unwrap();
    assert!(e.get_record(&r.record_id, "ns/d").unwrap().is_none());
    assert!(e.get_record(&r.record_id, "ns/main").unwrap().is_some());
}
