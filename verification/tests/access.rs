use hellodb::auth::access::{AccessDecision, AccessGate};
use hellodb::auth::consent::{ConsentAction, ConsentProof};
use hellodb::auth::delegation::{DelegationCredential, DelegationScope};
use hellodb::crypto::identity::KeyPair;
use hellodb::namespace::Namespace;

fn make_namespace(owner: &KeyPair, id: &str) -> Namespace {
    Namespace {
        id: id.into(),
        name: format!("NS {}", id),
        owner: owner.verifying.clone(),
        description: None,
        created_at_ms: 1000,
        encrypted: true,
        schemas: Vec::new(),
    }
}

#[test]
fn owner_always_has_access() {
    let owner = KeyPair::generate();
    let ns = make_namespace(&owner, "test.ns");
    let gate = AccessGate::new();

    assert!(gate.check_read(&owner.verifying, &ns, 5000).is_allowed());
    assert!(gate.check_write(&owner.verifying, &ns, 5000).is_allowed());
}

#[test]
fn non_owner_denied_without_consent() {
    let owner = KeyPair::generate();
    let other = KeyPair::generate();
    let ns = make_namespace(&owner, "test.ns");
    let gate = AccessGate::new();

    assert!(!gate.check_read(&other.verifying, &ns, 5000).is_allowed());
    assert!(!gate.check_write(&other.verifying, &ns, 5000).is_allowed());
}

#[test]
fn cross_namespace_read_with_consent() {
    let owner = KeyPair::generate();
    let reader = KeyPair::generate();
    let ns = make_namespace(&owner, "ainp.commerce");

    let consent = ConsentProof::new_with_timestamp(
        &owner.signing,
        ConsentAction::CrossNamespaceRead,
        "Grant reader access to ainp.commerce".into(),
        reader.verifying.to_base64(),
        Some("ainp.commerce".into()),
        1000,
        Some(99999),
    )
    .unwrap();

    let mut gate = AccessGate::new();
    gate.add_consent(consent).unwrap();

    assert!(gate.check_read(&reader.verifying, &ns, 5000).is_allowed());
    assert!(!gate.check_write(&reader.verifying, &ns, 5000).is_allowed());
}

#[test]
fn expired_consent_denied() {
    let owner = KeyPair::generate();
    let reader = KeyPair::generate();
    let ns = make_namespace(&owner, "test.ns");

    let consent = ConsentProof::new_with_timestamp(
        &owner.signing,
        ConsentAction::CrossNamespaceRead,
        "test".into(),
        reader.verifying.to_base64(),
        None,
        1000,
        Some(2000),
    )
    .unwrap();

    let mut gate = AccessGate::new();
    gate.add_consent(consent).unwrap();

    assert!(gate.check_read(&reader.verifying, &ns, 1500).is_allowed());
    assert!(!gate.check_read(&reader.verifying, &ns, 3000).is_allowed());
}

#[test]
fn agent_cross_namespace_query_with_delegation() {
    let user = KeyPair::generate();
    let agent = KeyPair::generate();
    let ns1 = make_namespace(&user, "ainp.commerce");
    let ns2 = make_namespace(&user, "health.vitals");

    let deleg = DelegationCredential::new(
        &user.signing,
        agent.verifying.clone(),
        vec![DelegationScope::CrossNamespaceQuery],
        vec!["ainp.commerce".into(), "health.vitals".into()],
        1000,
        3_600_000,
        100,
    )
    .unwrap();

    let mut gate = AccessGate::new();
    gate.add_delegation(deleg).unwrap();

    let decision = gate.check_cross_namespace_query(&agent.verifying, &[&ns1, &ns2], 5000);
    assert!(decision.is_allowed());
}

#[test]
fn delegation_wrong_namespace_denied() {
    let user = KeyPair::generate();
    let agent = KeyPair::generate();
    let ns_finance = make_namespace(&user, "finance.tx");

    let deleg = DelegationCredential::new(
        &user.signing,
        agent.verifying.clone(),
        vec![DelegationScope::CrossNamespaceQuery],
        vec!["ainp.commerce".into()],
        1000,
        3_600_000,
        100,
    )
    .unwrap();

    let mut gate = AccessGate::new();
    gate.add_delegation(deleg).unwrap();

    let decision = gate.check_cross_namespace_query(&agent.verifying, &[&ns_finance], 5000);
    assert!(!decision.is_allowed());
}

#[test]
fn revoked_delegation_denied() {
    let user = KeyPair::generate();
    let agent = KeyPair::generate();
    let ns = make_namespace(&user, "test.ns");

    let deleg = DelegationCredential::new(
        &user.signing,
        agent.verifying.clone(),
        vec![DelegationScope::ReadNamespace],
        vec![],
        1000,
        3_600_000,
        0,
    )
    .unwrap();
    let deleg_id = deleg.delegation_id.clone();

    let mut gate = AccessGate::new();
    gate.add_delegation(deleg).unwrap();

    assert!(gate.check_read(&agent.verifying, &ns, 5000).is_allowed());

    gate.revoke_delegation(&deleg_id);

    assert!(!gate.check_read(&agent.verifying, &ns, 5000).is_allowed());
}

#[test]
fn write_access_with_delegation() {
    let user = KeyPair::generate();
    let app = KeyPair::generate();
    let ns = make_namespace(&user, "test.ns");

    let deleg = DelegationCredential::new(
        &user.signing,
        app.verifying.clone(),
        vec![DelegationScope::WriteNamespace],
        vec!["test.ns".into()],
        1000,
        3_600_000,
        0,
    )
    .unwrap();

    let mut gate = AccessGate::new();
    gate.add_delegation(deleg).unwrap();

    assert!(gate.check_write(&app.verifying, &ns, 5000).is_allowed());
}

#[test]
fn cleanup_expired() {
    let user = KeyPair::generate();
    let agent = KeyPair::generate();

    let deleg = DelegationCredential::new(
        &user.signing,
        agent.verifying.clone(),
        vec![DelegationScope::ReadNamespace],
        vec![],
        1000,
        1000,
        0,
    )
    .unwrap();

    let mut gate = AccessGate::new();
    gate.add_delegation(deleg).unwrap();

    assert_eq!(gate.delegations.len(), 1);
    gate.cleanup_expired(3000);
    assert_eq!(gate.delegations.len(), 0);
}

#[test]
fn denial_messages_name_the_namespace() {
    let owner = KeyPair::generate();
    let other = KeyPair::generate();
    let ns = make_namespace(&owner, "a.b");
    let gate = AccessGate::default();
    match gate.check_read(&other.verifying, &ns, 1) {
        AccessDecision::Denied(m) => {
            assert_eq!(m, "no valid consent or delegation for reading namespace 'a.b'")
        }
        AccessDecision::Allowed => panic!("allowed"),
    }
    match gate.check_write(&other.verifying, &ns, 1) {
        AccessDecision::Denied(m) => {
            assert_eq!(m, "no valid consent or delegation for writing to namespace 'a.b'")
        }
        AccessDecision::Allowed => panic!("allowed"),
    }
    match gate.check_cross_namespace_query(&other.verifying, &[&ns], 1) {
        AccessDecision::Denied(m) => assert_eq!(m, "no valid delegation for cross-namespace query"),
        AccessDecision::Allowed => panic!("allowed"),
    }
}

#[test]
fn tampered_consent_is_rejected_and_scoped_consent_is_limited() {
    let owner = KeyPair::generate();
    let reader = KeyPair::generate();
    let mut consent = ConsentProof::new_with_timestamp(
        &owner.signing,
        ConsentAction::CrossNamespaceRead,
        "x".into(),
        reader.verifying.to_base64(),
        Some("one".into()),
        1,
        None,
    )
    .unwrap();
    let mut gate = AccessGate::new();
    let good = consent.clone();
    consent.description = "y".into();
    assert!(gate.add_consent(consent).is_err());
    assert!(gate.consents.is_empty());
    gate.add_consent(good).unwrap();
    assert!(gate.check_read(&reader.verifying, &make_namespace(&owner, "one"), 5).is_allowed());
    assert!(!gate.check_read(&reader.verifying, &make_namespace(&owner, "two"), 5).is_allowed());
}
