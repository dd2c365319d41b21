use hellodb::crypto::hash::{content_hash, content_hash_bytes};

#[test]
fn hash_deterministic() {
    let a = content_hash(b"hello");
    let b = content_hash(b"hello");
    assert_eq!(a, b);
}

#[test]
fn different_input_different_hash() {
    let a = content_hash(b"hello");
    let b = content_hash(b"world");
    assert_ne!(a, b);
}

#[test]
fn hash_length() {
    let h = content_hash(b"test");
    assert_eq!(h.len(), 64);
}

#[test]
fn hash_is_blake3_hex() {
    assert_eq!(
        content_hash(b""),
        "af1349b9f5f9a1a6a0404dea36dcc9499bcb25c9adc112b7cc9a93cae41f3262"
    );
    assert_eq!(content_hash_bytes(b""), *blake3::hash(b"").as_bytes());
}
