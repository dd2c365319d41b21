use hellodb::crypto::identity::KeyPair;
use hellodb::crypto::keychain::{MasterKey, NamespaceKey};
use hellodb::error::SyncError;
use hellodb::json::JsonValue;
use hellodb::record::Record;
use hellodb::sync::delta::{open_delta, seal_delta, DeltaBundle};

const PAYLOAD: &[u8] = br#"{"device_id":"device-a","namespace":"commerce","branch":"commerce/main","from_cursor":0,"to_cursor":5000,"records":[{}],"tombstones":["deleted-id-1"],"created_at_ms":6000}"#;

fn make_test_bundle() -> (DeltaBundle, NamespaceKey) {
    let mk = MasterKey::generate();
    let ns_key = mk.derive_namespace_key("commerce");
    let kp = KeyPair::generate();

    let rec = Record::new_with_timestamp(
        &kp.signing,
        "commerce.listing".into(),
        "commerce".into(),
        JsonValue::object(vec![
            ("title".to_string(), JsonValue::string("Bowl")),
            ("price".to_string(), JsonValue::decimal(2499, 2)),
        ]),
        None,
        5000,
    )
    .unwrap();

    let bundle = DeltaBundle {
        device_id: "device-a".into(),
        namespace: "commerce".into(),
        branch: "commerce/main".into(),
        from_cursor: 0,
        to_cursor: 5000,
        records: vec![rec],
        tombstones: vec!["deleted-id-1".into()],
        created_at_ms: 6000,
    };

    (bundle, ns_key)
}

#[test]
fn seal_open_roundtrip() {
    let (bundle, ns_key) = make_test_bundle();
    let sealed = seal_delta(&bundle, PAYLOAD, &ns_key).unwrap();
    let opened = open_delta(&sealed, &ns_key).unwrap();
    assert_eq!(opened, PAYLOAD);
    let v: serde_json::Value = serde_json::from_slice(&opened).unwrap();
    assert_eq!(v["device_id"], "device-a");
    assert_eq!(v["records"].as_array().unwrap().len(), 1);
    assert_eq!(v["tombstones"][0], "deleted-id-1");
    assert_eq!(v["from_cursor"], 0);
    assert_eq!(v["to_cursor"], 5000);
}

#[test]
fn delta_wrong_key_fails() {
    let (bundle, ns_key) = make_test_bundle();
    let sealed = seal_delta(&bundle, PAYLOAD, &ns_key).unwrap();

    let mk2 = MasterKey::generate();
    let wrong_key = mk2.derive_namespace_key("commerce");
    match open_delta(&sealed, &wrong_key) {
        Err(SyncError::Decryption(m)) => {
            assert_eq!(m, "decryption failed: ciphertext is corrupted or key is wrong")
        }
        other => panic!("unexpected {:?}", other),
    }
}

#[test]
fn metadata_is_accurate() {
    let (bundle, _) = make_test_bundle();
    let meta = bundle.metadata();
    assert_eq!(meta.device_id, "device-a");
    assert_eq!(meta.namespace, "commerce");
    assert_eq!(meta.record_count, 1);
    assert_eq!(meta.tombstone_count, 1);
    assert_eq!(meta.from_cursor, 0);
    assert_eq!(meta.to_cursor, 5000);
}

#[test]
fn sealed_metadata_cleartext() {
    let (bundle, ns_key) = make_test_bundle();
    let sealed = seal_delta(&bundle, PAYLOAD, &ns_key).unwrap();
    assert_eq!(sealed.metadata.device_id, "device-a");
    assert_eq!(sealed.metadata.record_count, 1);
    assert_eq!(sealed.metadata.branch, "commerce/main");
    assert_eq!(sealed.metadata.created_at_ms, 6000);
}

#[test]
fn empty_delta_roundtrip() {
    let mk = MasterKey::generate();
    let ns_key = mk.derive_namespace_key("empty");
    let bundle = DeltaBundle {
        device_id: "d1".into(),
        namespace: "empty".into(),
        branch: "empty/main".into(),
        from_cursor: 100,
        to_cursor: 100,
        records: vec![],
        tombstones: vec![],
        created_at_ms: 200,
    };
    let payload = br#"{"records":[],"tombstones":[]}"#;
    let sealed = seal_delta(&bundle, payload, &ns_key).unwrap();
    let opened = open_delta(&sealed, &ns_key).unwrap();
    let v: serde_json::Value = serde_json::from_slice(&opened).unwrap();
    assert!(v["records"].as_array().unwrap().is_empty());
    assert!(v["tombstones"].as_array().unwrap().is_empty());
    assert_eq!(sealed.metadata.record_count, 0);
}

#[test]
fn sealed_payload_is_not_cleartext() {
    let (bundle, ns_key) = make_test_bundle();
    let sealed = seal_delta(&bundle, PAYLOAD, &ns_key).unwrap();
    assert_eq!(sealed.sealed.ciphertext.len(), PAYLOAD.len() + 16);
    assert_ne!(&sealed.sealed.ciphertext[..PAYLOAD.len()], PAYLOAD);
}
