use hellodb::crypto::identity::KeyPair;
use hellodb::json::JsonValue;
use hellodb::record::Record;
use hellodb::sync::conflict::{resolve_conflict, ConflictStrategy, SyncConflict};

fn make_record(kp: &KeyPair, v: &str, ts: u64) -> Record {
    let data = JsonValue::object(vec![("v".to_string(), JsonValue::string(v))]);
    Record::new_with_timestamp(&kp.signing, "test.schema".into(), "test.ns".into(), data, None, ts)
        .unwrap()
}

fn v_of(rec: &Record) -> String {
    match rec.data.get("v") {
        Some(JsonValue::String(s)) => s.clone(),
        other => panic!("unexpected {:?}", other),
    }
}

#[test]
fn lww_remote_newer_wins() {
    let kp = KeyPair::generate();
    let local = make_record(&kp, "local", 1000);
    let remote = make_record(&kp, "remote", 2000);
    let winner = resolve_conflict(ConflictStrategy::LastWriterWins, &local, &remote);
    assert_eq!(v_of(&winner), "remote");
}

#[test]
fn lww_local_newer_wins() {
    let kp = KeyPair::generate();
    let local = make_record(&kp, "local", 3000);
    let remote = make_record(&kp, "remote", 2000);
    let winner = resolve_conflict(ConflictStrategy::LastWriterWins, &local, &remote);
    assert_eq!(v_of(&winner), "local");
}

#[test]
fn lww_same_time_remote_wins() {
    let kp = KeyPair::generate();
    let local = make_record(&kp, "local", 5000);
    let remote = make_record(&kp, "remote", 5000);
    let winner = resolve_conflict(ConflictStrategy::LastWriterWins, &local, &remote);
    assert_eq!(v_of(&winner), "remote");
}

#[test]
fn creator_wins_same_creator_falls_back_to_lww() {
    let kp = KeyPair::generate();
    let local = make_record(&kp, "local", 1000);
    let remote = make_record(&kp, "remote", 2000);
    let winner = resolve_conflict(ConflictStrategy::CreatorWins, &local, &remote);
    assert_eq!(v_of(&winner), "remote");
}

#[test]
fn creator_wins_different_creator_keeps_local() {
    let kp_local = KeyPair::generate();
    let kp_remote = KeyPair::generate();
    let local = make_record(&kp_local, "local", 1000);
    let remote = make_record(&kp_remote, "remote", 2000);
    let winner = resolve_conflict(ConflictStrategy::CreatorWins, &local, &remote);
    assert_eq!(v_of(&winner), "local");
}

#[test]
fn sync_conflict_struct() {
    let kp = KeyPair::generate();
    let local = make_record(&kp, "local", 1000);
    let remote = make_record(&kp, "remote", 2000);
    let mut conflict = SyncConflict {
        record_id: "test-id".into(),
        local_record: local.clone(),
        remote_record: remote.clone(),
        resolved: None,
    };
    assert!(conflict.resolved.is_none());

    let winner = resolve_conflict(ConflictStrategy::LastWriterWins, &local, &remote);
    conflict.resolved = Some(winner);
    assert!(conflict.resolved.is_some());
}

#[test]
fn last_writer_wins_is_symmetric_for_distinct_times() {
    let kp = KeyPair::generate();
    let a = make_record(&kp, "a", 10);
    let b = make_record(&kp, "b", 20);
    let from_a = resolve_conflict(ConflictStrategy::LastWriterWins, &a, &b);
    let from_b = resolve_conflict(ConflictStrategy::LastWriterWins, &b, &a);
    assert_eq!(from_a.record_id, from_b.record_id);
    assert_eq!(v_of(&from_a), "b");
}
