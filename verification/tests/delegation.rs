use hellodb::auth::delegation::{DelegationCredential, DelegationScope};
use hellodb::crypto::identity::KeyPair;

#[test]
fn delegation_create_and_verify() {
    let user = KeyPair::generate();
    let agent = KeyPair::generate();

    let deleg = DelegationCredential::new(
        &user.signing,
        agent.verifying.clone(),
        vec![DelegationScope::ReadNamespace, DelegationScope::CrossNamespaceQuery],
        vec!["ainp.commerce".into()],
        1000,
        3600_000,
        100,
    )
    .unwrap();

    assert!(deleg.verify_signature().is_ok());
    assert!(deleg.is_valid(2000));
    assert!(deleg.has_scope(&DelegationScope::ReadNamespace));
    assert!(deleg.has_scope(&DelegationScope::CrossNamespaceQuery));
    assert!(!deleg.has_scope(&DelegationScope::WriteNamespace));
}

#[test]
fn full_scope_grants_everything() {
    let user = KeyPair::generate();
    let agent = KeyPair::generate();

    let deleg = DelegationCredential::new(
        &user.signing,
        agent.verifying.clone(),
        vec![DelegationScope::Full],
        vec![],
        1000,
        3600_000,
        0,
    )
    .unwrap();

    assert!(deleg.has_scope(&DelegationScope::ReadNamespace));
    assert!(deleg.has_scope(&DelegationScope::WriteNamespace));
    assert!(deleg.has_scope(&DelegationScope::CrossNamespaceQuery));
}

#[test]
fn expired_delegation() {
    let user = KeyPair::generate();
    let agent = KeyPair::generate();

    let deleg = DelegationCredential::new(
        &user.signing,
        agent.verifying.clone(),
        vec![DelegationScope::ReadNamespace],
        vec![],
        1000,
        1000,
        0,
    )
    .unwrap();

    assert!(deleg.is_valid(1500));
    assert!(!deleg.is_valid(3000));
}

#[test]
fn query_limit() {
    let user = KeyPair::generate();
    let agent = KeyPair::generate();

    let mut deleg = DelegationCredential::new(
        &user.signing,
        agent.verifying.clone(),
        vec![DelegationScope::CrossNamespaceQuery],
        vec![],
        1000,
        3600_000,
        2,
    )
    .unwrap();

    assert!(deleg.is_valid(2000));
    deleg.record_query();
    assert!(deleg.is_valid(2000));
    deleg.record_query();
    assert!(!deleg.is_valid(2000));
}

#[test]
fn revocation() {
    let user = KeyPair::generate();
    let agent = KeyPair::generate();

    let mut deleg = DelegationCredential::new(
        &user.signing,
        agent.verifying.clone(),
        vec![DelegationScope::ReadNamespace],
        vec![],
        1000,
        3600_000,
        0,
    )
    .unwrap();

    assert!(deleg.is_valid(2000));
    deleg.revoke();
    assert!(!deleg.is_valid(2000));
}

#[test]
fn tampered_delegation_fails() {
    let user = KeyPair::generate();
    let agent = KeyPair::generate();

    let mut deleg = DelegationCredential::new(
        &user.signing,
        agent.verifying.clone(),
        vec![DelegationScope::ReadNamespace],
        vec![],
        1000,
        3600_000,
        0,
    )
    .unwrap();

    deleg.scopes.push(DelegationScope::Full);
    assert!(deleg.verify_signature().is_err());
}

#[test]
fn namespace_scoped_delegation() {
    let user = KeyPair::generate();
    let agent = KeyPair::generate();

    let deleg = DelegationCredential::new(
        &user.signing,
        agent.verifying.clone(),
        vec![DelegationScope::ReadNamespace],
        vec!["ainp.commerce".into(), "health.vitals".into()],
        1000,
        3600_000,
        0,
    )
    .unwrap();

    assert!(deleg.covers_namespace("ainp.commerce"));
    assert!(deleg.covers_namespace("health.vitals"));
    assert!(!deleg.covers_namespace("finance.transactions"));
}

#[test]
fn empty_namespaces_covers_all() {
    let user = KeyPair::generate();
    let agent = KeyPair::generate();

    let deleg = DelegationCredential::new(
        &user.signing,
        agent.verifying.clone(),
        vec![DelegationScope::ReadNamespace],
        vec![],
        1000,
        3600_000,
        0,
    )
    .unwrap();

    assert!(deleg.covers_namespace("anything"));
}

#[test]
fn delegation_id_is_hash_of_signed_fields() {
    let user = KeyPair::generate();
    let agent = KeyPair::generate();
    let deleg = DelegationCredential::new(
        &user.signing,
        agent.verifying.clone(),
        vec![DelegationScope::ManageBranches],
        vec!["n".into()],
        5,
        10,
        3,
    )
    .unwrap();
    let bytes = deleg.signable_bytes();
    assert_eq!(deleg.delegation_id, blake3::hash(&bytes).to_hex().to_string());
    assert_eq!(deleg.expires_at_ms, 15);
    let expected = format!(
        "{{\"created_at_ms\":5,\"delegate\":\"{}\",\"delegator\":\"{}\",\"expires_at_ms\":15,\"max_queries\":3,\"namespaces\":[\"n\"],\"scopes\":[\"manage_branches\"]}}",
        agent.verifying.to_base64(),
        user.verifying.to_base64()
    );
    assert_eq!(String::from_utf8(bytes).unwrap(), expected);
}
