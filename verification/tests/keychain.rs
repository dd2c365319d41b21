use hellodb::crypto::encryption::seal_with_key;
use hellodb::crypto::keychain::MasterKey;

#[test]
fn derive_deterministic() {
    let mk = MasterKey::from_bytes([42u8; 32]);
    let nk1 = mk.derive_namespace_key("ainp.commerce");
    let nk2 = mk.derive_namespace_key("ainp.commerce");
    assert_eq!(nk1.to_bytes(), nk2.to_bytes());
}

#[test]
fn different_namespaces_different_keys() {
    let mk = MasterKey::from_bytes([42u8; 32]);
    let nk1 = mk.derive_namespace_key("ainp.commerce");
    let nk2 = mk.derive_namespace_key("health.vitals");
    assert_ne!(nk1.to_bytes(), nk2.to_bytes());
}

#[test]
fn different_master_keys_different_namespace_keys() {
    let mk1 = MasterKey::from_bytes([1u8; 32]);
    let mk2 = MasterKey::from_bytes([2u8; 32]);
    let nk1 = mk1.derive_namespace_key("test");
    let nk2 = mk2.derive_namespace_key("test");
    assert_ne!(nk1.to_bytes(), nk2.to_bytes());
}

#[test]
fn encrypt_decrypt_roundtrip() {
    let mk = MasterKey::generate();
    let nk = mk.derive_namespace_key("ainp.commerce");
    let plaintext = b"listing record data";
    let sealed = nk.encrypt(plaintext);
    let opened = nk.decrypt(&sealed).unwrap();
    assert_eq!(opened, plaintext);
}

#[test]
fn wrong_namespace_key_fails() {
    let mk = MasterKey::generate();
    let nk1 = mk.derive_namespace_key("ainp.commerce");
    let nk2 = mk.derive_namespace_key("health.vitals");
    let sealed = nk1.encrypt(b"secret commerce data");
    assert!(nk2.decrypt(&sealed).is_err());
}

#[test]
fn master_key_roundtrip_bytes() {
    let mk = MasterKey::generate();
    let bytes = mk.to_bytes();
    let restored = MasterKey::from_bytes(bytes);
    let nk1 = mk.derive_namespace_key("test");
    let nk2 = restored.derive_namespace_key("test");
    assert_eq!(nk1.to_bytes(), nk2.to_bytes());
}

#[test]
fn namespace_key_reports_namespace() {
    let mk = MasterKey::generate();
    let nk = mk.derive_namespace_key("finance.transactions");
    assert_eq!(nk.namespace(), "finance.transactions");
}

#[test]
fn namespace_key_matches_blake3_derivation() {
    let mk = MasterKey::from_bytes([5u8; 32]);
    let nk = mk.derive_namespace_key("ns.a");
    let expected = blake3::derive_key("hellodb-ns-v0:ns.a", &[5u8; 32]);
    assert_eq!(nk.to_bytes(), expected);
    let sealed = seal_with_key(&expected, b"x");
    assert_eq!(nk.decrypt(&sealed).unwrap(), b"x");
}
