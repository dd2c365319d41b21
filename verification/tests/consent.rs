use hellodb::auth::consent::{ConsentAction, ConsentProof};
use hellodb::crypto::identity::{KeyPair, SigningKey};

#[test]
fn consent_create_and_verify() {
    let kp = KeyPair::generate();
    let consent = ConsentProof::new(
        &kp.signing,
        ConsentAction::CrossNamespaceRead,
        "Grant App B read access to ainp.commerce".into(),
        "app-b-pubkey".into(),
        Some("ainp.commerce".into()),
        None,
    )
    .unwrap();

    assert!(consent.verify().is_ok());
}

#[test]
fn consent_wrong_key_fails() {
    let kp1 = KeyPair::generate();
    let kp2 = KeyPair::generate();
    let mut consent = ConsentProof::new(
        &kp1.signing,
        ConsentAction::CrossNamespaceRead,
        "test".into(),
        "target".into(),
        None,
        None,
    )
    .unwrap();

    consent.consenter = kp2.verifying;
    assert!(consent.verify().is_err());
}

#[test]
fn tampered_description_fails() {
    let kp = KeyPair::generate();
    let mut consent = ConsentProof::new(
        &kp.signing,
        ConsentAction::ExportData,
        "Export health data".into(),
        "export-target".into(),
        None,
        None,
    )
    .unwrap();

    consent.description = "Export ALL data".into();
    assert!(consent.verify().is_err());
}

#[test]
fn expired_consent() {
    let kp = KeyPair::generate();
    let consent = ConsentProof::new_with_timestamp(
        &kp.signing,
        ConsentAction::CrossNamespaceRead,
        "test".into(),
        "target".into(),
        None,
        1000,
        Some(2000),
    )
    .unwrap();

    assert!(consent.is_valid(1500));
    assert!(!consent.is_valid(3000));
}

#[test]
fn no_expiry_always_valid() {
    let kp = KeyPair::generate();
    let consent = ConsentProof::new(
        &kp.signing,
        ConsentAction::CrossNamespaceRead,
        "test".into(),
        "target".into(),
        None,
        None,
    )
    .unwrap();

    assert!(consent.is_valid(u64::MAX));
}

#[test]
fn namespace_scoped_consent() {
    let kp = KeyPair::generate();
    let consent = ConsentProof::new(
        &kp.signing,
        ConsentAction::CrossNamespaceRead,
        "Read commerce data".into(),
        "agent-key".into(),
        Some("ainp.commerce".into()),
        None,
    )
    .unwrap();

    assert!(consent.verify().is_ok());
    assert_eq!(consent.namespace, Some("ainp.commerce".into()));
}

#[test]
fn consent_signable_bytes_are_canonical_json() {
    let sk = SigningKey::from_bytes(&[1u8; 32]);
    let consent = ConsentProof::new_with_timestamp(
        &sk,
        ConsentAction::AgentQueryAccess,
        "d".into(),
        "t".into(),
        None,
        7,
        Some(9),
    )
    .unwrap();
    let key = sk.verifying_key().to_base64();
    let expected = format!(
        "{{\"action\":\"agent_query_access\",\"consented_at_ms\":7,\"consenter\":\"{}\",\"description\":\"d\",\"expires_at_ms\":9,\"target\":\"t\"}}",
        key
    );
    assert_eq!(String::from_utf8(consent.signable_bytes()).unwrap(), expected);
    assert_eq!(
        consent.content_hash().unwrap(),
        blake3::hash(expected.as_bytes()).to_hex().to_string()
    );
    assert!(consent.is_valid(9));
    assert!(!consent.is_valid(10));
}
