use hellodb::crypto::encryption::{
    open, open_with_key, seal, seal_with_key, DecryptionKey, EncryptionKey,
};
use hellodb::error::CryptoError;

#[test]
fn key_exchange_symmetric() {
    let alice = DecryptionKey::generate();
    let bob = DecryptionKey::generate();

    let shared_ab = alice.exchange(&bob.encryption_key());
    let shared_ba = bob.exchange(&alice.encryption_key());

    assert_eq!(shared_ab.to_bytes(), shared_ba.to_bytes());
}

#[test]
fn seal_and_open() {
    let alice = DecryptionKey::generate();
    let bob = DecryptionKey::generate();
    let shared = alice.exchange(&bob.encryption_key());

    let plaintext = b"secret hellodb record";
    let sealed = seal(&shared, plaintext);
    let opened = open(&shared, &sealed).unwrap();

    assert_eq!(opened, plaintext);
}

#[test]
fn wrong_key_fails_open() {
    let alice = DecryptionKey::generate();
    let bob = DecryptionKey::generate();
    let eve = DecryptionKey::generate();

    let shared_ab = alice.exchange(&bob.encryption_key());
    let shared_ae = alice.exchange(&eve.encryption_key());

    let sealed = seal(&shared_ab, b"secret");
    assert!(open(&shared_ae, &sealed).is_err());
}

#[test]
fn tampered_ciphertext_fails() {
    let alice = DecryptionKey::generate();
    let bob = DecryptionKey::generate();
    let shared = alice.exchange(&bob.encryption_key());

    let mut sealed = seal(&shared, b"secret");
    if let Some(byte) = sealed.ciphertext.first_mut() {
        *byte ^= 0xFF;
    }
    assert!(open(&shared, &sealed).is_err());
}

#[test]
fn encryption_key_base64_roundtrip() {
    let dk = DecryptionKey::generate();
    let ek = dk.encryption_key();
    let b64 = ek.to_base64();
    let restored = EncryptionKey::from_base64(&b64).unwrap();
    assert_eq!(ek, restored);
}

#[test]
fn seal_and_open_with_key() {
    let key = [42u8; 32];
    let plaintext = b"namespace encrypted data";
    let sealed = seal_with_key(&key, plaintext);
    let opened = open_with_key(&key, &sealed).unwrap();
    assert_eq!(opened, plaintext);
}

#[test]
fn wrong_symmetric_key_fails() {
    let key1 = [42u8; 32];
    let key2 = [99u8; 32];
    let sealed = seal_with_key(&key1, b"secret");
    assert!(open_with_key(&key2, &sealed).is_err());
}

#[test]
fn sealed_box_shape_and_error_kind() {
    let key = [7u8; 32];
    let sealed = seal_with_key(&key, b"abc");
    assert_eq!(sealed.ciphertext.len(), 3 + 16);
    assert_ne!(&sealed.ciphertext[..3], b"abc");
    assert!(matches!(open_with_key(&[8u8; 32], &sealed), Err(CryptoError::DecryptionFailed)));
}

#[test]
fn encryption_key_from_bad_base64_fails() {
    assert!(EncryptionKey::from_base64("!!!").is_err());
    assert!(matches!(
        EncryptionKey::from_base64("AAAA"),
        Err(CryptoError::InvalidKeyLength { expected: 32, got: 3 })
    ));
}
