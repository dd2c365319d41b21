use hellodb::crypto::identity::{KeyPair, Signature, SigningKey, VerifyingKey};
use hellodb::error::CryptoError;

#[test]
fn generate_and_verify() {
    let kp = KeyPair::generate();
    let msg = b"hello hellodb";
    let sig = kp.signing.sign(msg);
    assert!(kp.verifying.verify(msg, &sig).is_ok());
}

#[test]
fn wrong_message_fails() {
    let kp = KeyPair::generate();
    let sig = kp.signing.sign(b"correct");
    assert!(kp.verifying.verify(b"wrong", &sig).is_err());
}

#[test]
fn identity_wrong_key_fails() {
    let kp1 = KeyPair::generate();
    let kp2 = KeyPair::generate();
    let sig = kp1.signing.sign(b"msg");
    assert!(kp2.verifying.verify(b"msg", &sig).is_err());
}

#[test]
fn roundtrip_bytes() {
    let kp = KeyPair::generate();
    let bytes = kp.signing.to_bytes();
    let restored = SigningKey::from_bytes(&bytes);
    assert_eq!(restored.verifying_key().to_bytes(), kp.verifying.to_bytes());
}

#[test]
fn roundtrip_base64() {
    let kp = KeyPair::generate();
    let b64 = kp.verifying.to_base64();
    let restored = VerifyingKey::from_base64(&b64).unwrap();
    assert_eq!(restored, kp.verifying);
}

#[test]
fn signature_base64_roundtrip() {
    let kp = KeyPair::generate();
    let sig = kp.signing.sign(b"test");
    let b64 = sig.to_base64();
    let restored = Signature::from_base64(&b64).unwrap();
    assert_eq!(sig, restored);
}

#[test]
fn fingerprint_deterministic() {
    let kp = KeyPair::generate();
    assert_eq!(kp.verifying.fingerprint(), kp.verifying.fingerprint());
    assert_eq!(kp.verifying.fingerprint().len(), 16);
}

#[test]
fn known_seed_gives_known_key_and_fingerprint() {
    let seed = [9u8; 32];
    let sk = SigningKey::from_bytes(&seed);
    let dalek = ed25519_dalek::SigningKey::from_bytes(&seed);
    assert_eq!(sk.verifying_key().to_bytes(), dalek.verifying_key().to_bytes());
    let vk = sk.verifying_key();
    let expected = hex::encode(&blake3::hash(&vk.to_bytes()).as_bytes()[..8]);
    assert_eq!(vk.fingerprint(), expected);
}

#[test]
fn bad_key_texts_fail() {
    assert!(matches!(VerifyingKey::from_base64("@@"), Err(CryptoError::Base64Decode(_))));
    assert!(matches!(
        VerifyingKey::from_base64("AAAA"),
        Err(CryptoError::InvalidKeyLength { expected: 32, got: 3 })
    ));
    assert!(matches!(
        Signature::from_base64("AAAA"),
        Err(CryptoError::InvalidKeyLength { expected: 64, got: 3 })
    ));
}
