//! The outside cryptographic and encoding functions the library calls, with
//! what each is trusted to do. Every function here makes one outside call.

use vstd::prelude::*;
use vstd::utf8::{valid_utf8, decode_utf8};
use base64::Engine;
use chacha20poly1305::aead::{Aead, KeyInit};
use ed25519_dalek::{Signer, Verifier};

verus! {

#[verifier::external_type_specification]
#[verifier::external_body]
pub struct ExDecodeError(base64::DecodeError);

// ---------------------------------------------------------------------------
// Hex and base64 text (stated in full)
// ---------------------------------------------------------------------------

/// The lowercase hex digit of `d < 16`.
pub open spec fn hex_char(d: int) -> char {
    if d < 10 { (48 + d) as char } else { (87 + d) as char }
}

/// Lowercase hex text of bytes, two digits per byte.
pub open spec fn hex_text(bs: Seq<u8>) -> Seq<char>
    decreases bs.len(),
{
    if bs.len() == 0 {
        Seq::empty()
    } else {
        hex_text(bs.drop_last()) + seq![hex_char((bs.last() / 16) as int), hex_char((bs.last() % 16) as int)]
    }
}

/// The character of a 6-bit value in the URL-safe base64 alphabet.
pub open spec fn b64_char(v: int) -> char {
    if v < 26 {
        (65 + v) as char
    } else if v < 52 {
        (97 + v - 26) as char
    } else if v < 62 {
        (48 + v - 52) as char
    } else if v == 62 {
        '-'
    } else {
        '_'
    }
}

/// URL-safe base64 text of bytes, without padding.
pub open spec fn base64_text(bs: Seq<u8>) -> Seq<char>
    decreases bs.len(),
{
    if bs.len() == 0 {
        Seq::empty()
    } else if bs.len() == 1 {
        seq![b64_char((bs[0] / 4) as int), b64_char((bs[0] % 4) * 16)]
    } else if bs.len() == 2 {
        seq![b64_char((bs[0] / 4) as int), b64_char((bs[0] % 4) * 16 + bs[1] / 16), b64_char((bs[1] % 16) * 4)]
    } else {
        seq![
            b64_char((bs[0] / 4) as int),
            b64_char((bs[0] % 4) * 16 + bs[1] / 16),
            b64_char((bs[1] % 16) * 4 + bs[2] / 64),
            b64_char((bs[2] % 64) as int),
        ] + base64_text(bs.skip(3))
    }
}

/// `hex::encode`: lowercase hex text of `bytes`.
#[verifier::external_body]
pub(crate) fn hex_encode(bytes: &[u8]) -> (r: String)
    ensures
        r@ == hex_text(bytes@),
{
    hex::encode(bytes)
}

/// `base64::engine::general_purpose::URL_SAFE_NO_PAD.encode`: URL-safe
/// base64 text of `bytes`, without padding.
#[verifier::external_body]
pub(crate) fn base64_encode(bytes: &[u8]) -> (r: String)
    ensures
        r@ == base64_text(bytes@),
{
    base64::engine::general_purpose::URL_SAFE_NO_PAD.encode(bytes)
}

/// `base64::engine::general_purpose::URL_SAFE_NO_PAD.decode`. This engine
/// rejects padding and non-zero trailing bits, so it succeeds exactly on the
/// texts that `encode` produces, and gives back the bytes they encode.
#[verifier::external_body]
pub(crate) fn base64_decode(text: &str) -> (r: Result<Vec<u8>, base64::DecodeError>)
    ensures
        r matches Ok(bytes) ==> base64_text(bytes@) == text@,
        (exists|bytes: Seq<u8>| base64_text(bytes) == text@) ==> r is Ok,
{
    base64::engine::general_purpose::URL_SAFE_NO_PAD.decode(text)
}

/// The `Display` text of a `base64::DecodeError`. Nothing is promised of
/// the text.
#[verifier::external_body]
pub(crate) fn base64_error_text(e: &base64::DecodeError) -> (r: String) {
    format!("{}", e)
}

/// `String::from_utf8`: the text of `bytes` when they are valid UTF-8,
/// else the `Display` text of the error, of which nothing is promised.
#[verifier::external_body]
pub(crate) fn utf8_to_string(bytes: Vec<u8>) -> (r: Result<String, String>)
    ensures
        r is Ok <==> valid_utf8(bytes@),
        r matches Ok(s) ==> s@ == decode_utf8(bytes@),
{
    String::from_utf8(bytes).map_err(|e| e.to_string())
}

// ---------------------------------------------------------------------------
// BLAKE3
// ---------------------------------------------------------------------------

/// The BLAKE3 hash of `data` (32 bytes).
pub uninterp spec fn blake3_digest(data: Seq<u8>) -> Seq<u8>;

/// The BLAKE3 key derived for `context` from `material` (32 bytes).
pub uninterp spec fn blake3_derived_key(context: Seq<char>, material: Seq<u8>) -> Seq<u8>;

/// `blake3::hash(data).to_hex()`: lowercase hex text of the BLAKE3 hash of `data`.
#[verifier::external_body]
pub(crate) fn blake3_hash_hex(data: &[u8]) -> (r: String)
    ensures
        r@ == hex_text(blake3_digest(data@)),
{
    blake3::hash(data).to_hex().to_string()
}

/// `blake3::hash(data)`: the 32 hash bytes.
#[verifier::external_body]
pub(crate) fn blake3_hash(data: &[u8]) -> (r: [u8; 32])
    ensures
        r@ == blake3_digest(data@),
{
    *blake3::hash(data).as_bytes()
}

/// `blake3::derive_key(context, material)`.
#[verifier::external_body]
pub(crate) fn blake3_derive_key(context: &str, material: &[u8]) -> (r: [u8; 32])
    ensures
        r@ == blake3_derived_key(context@, material@),
{
    blake3::derive_key(context, material)
}

// ---------------------------------------------------------------------------
// Ed25519
// ---------------------------------------------------------------------------

/// The Ed25519 public key of a 32-byte seed.
pub uninterp spec fn ed25519_public_key(seed: Seq<u8>) -> Seq<u8>;

/// The (deterministic) Ed25519 signature of `message` by the key of `seed`.
pub uninterp spec fn ed25519_signature(seed: Seq<u8>, message: Seq<u8>) -> Seq<u8>;

/// Whether 32 bytes decompress to a curve point.
pub uninterp spec fn ed25519_valid_public(public: Seq<u8>) -> bool;

/// Whether Ed25519 verification accepts `signature` on `message` under `public`.
pub uninterp spec fn ed25519_accepts(public: Seq<u8>, message: Seq<u8>, signature: Seq<u8>) -> bool;

/// `ed25519_dalek::SigningKey::from_bytes(seed).verifying_key().to_bytes()`.
/// A key derived from a seed is a valid point.
#[verifier::external_body]
pub(crate) fn ed25519_derive_public(seed: &[u8; 32]) -> (r: [u8; 32])
    ensures
        r@ == ed25519_public_key(seed@),
        ed25519_valid_public(r@),
{
    ed25519_dalek::SigningKey::from_bytes(seed).verifying_key().to_bytes()
}

/// `ed25519_dalek::SigningKey::from_bytes(seed).sign(message).to_bytes()`.
#[verifier::external_body]
pub(crate) fn ed25519_sign(seed: &[u8; 32], message: &[u8]) -> (r: [u8; 64])
    ensures
        r@ == ed25519_signature(seed@, message@),
{
    ed25519_dalek::SigningKey::from_bytes(seed).sign(message).to_bytes()
}

/// `ed25519_dalek::VerifyingKey::from_bytes(public).is_ok()`.
#[verifier::external_body]
pub(crate) fn ed25519_check_public(public: &[u8; 32]) -> (r: bool)
    ensures
        r == ed25519_valid_public(public@),
{
    ed25519_dalek::VerifyingKey::from_bytes(public).is_ok()
}

/// `ed25519_dalek::VerifyingKey::verify`. A signature made with a seed
/// verifies under that seed's public key.
#[verifier::external_body]
pub(crate) fn ed25519_verify(public: &[u8; 32], message: &[u8], signature: &[u8; 64]) -> (r: bool)
    requires
        ed25519_valid_public(public@),
    ensures
        r == ed25519_accepts(public@, message@, signature@),
        forall|seed: Seq<u8>|
            seed.len() == 32 && public@ == ed25519_public_key(seed) && signature@ == ed25519_signature(seed, message@)
                ==> r,
{
    match ed25519_dalek::VerifyingKey::from_bytes(public) {
        Ok(key) => key.verify(message, &ed25519_dalek::Signature::from_bytes(signature)).is_ok(),
        Err(_) => false,
    }
}

// ---------------------------------------------------------------------------
// X25519
// ---------------------------------------------------------------------------

/// The X25519 public key of a secret scalar.
pub uninterp spec fn x25519_public_key(secret: Seq<u8>) -> Seq<u8>;

/// The raw X25519 shared secret of a secret scalar and a peer's public key.
pub uninterp spec fn x25519_shared(secret: Seq<u8>, peer_public: Seq<u8>) -> Seq<u8>;

/// `x25519_dalek::PublicKey::from(&StaticSecret::from(secret)).to_bytes()`.
#[verifier::external_body]
pub(crate) fn x25519_derive_public(secret: &[u8; 32]) -> (r: [u8; 32])
    ensures
        r@ == x25519_public_key(secret@),
{
    x25519_dalek::PublicKey::from(&x25519_dalek::StaticSecret::from(*secret)).to_bytes()
}

/// `StaticSecret::from(secret).diffie_hellman(&PublicKey::from(peer))`.
/// Both sides of an exchange get the same secret.
#[verifier::external_body]
pub(crate) fn x25519_diffie_hellman(secret: &[u8; 32], peer_public: &[u8; 32]) -> (r: [u8; 32])
    ensures
        r@ == x25519_shared(secret@, peer_public@),
        forall|other: Seq<u8>|
            other.len() == 32 && peer_public@ == x25519_public_key(other) ==> r@ == x25519_shared(
                other,
                x25519_public_key(secret@),
            ),
{
    let s = x25519_dalek::StaticSecret::from(*secret);
    *s.diffie_hellman(&x25519_dalek::PublicKey::from(*peer_public)).as_bytes()
}

// ---------------------------------------------------------------------------
// ChaCha20-Poly1305
// ---------------------------------------------------------------------------

/// The longest plaintext ChaCha20-Poly1305 accepts is below 64 * (2^32 - 1) bytes.
pub open spec fn aead_max_len() -> nat {
    274877906880
}

/// The ciphertext (with its 16-byte tag) of `plaintext` under `key` and `nonce`.
pub uninterp spec fn aead_sealed(key: Seq<u8>, nonce: Seq<u8>, plaintext: Seq<u8>) -> Seq<u8>;

/// `ChaCha20Poly1305::new(key).encrypt(nonce, plaintext)`.
#[verifier::external_body]
pub(crate) fn aead_seal(key: &[u8; 32], nonce: &[u8; 12], plaintext: &[u8]) -> (r: Vec<u8>)
    requires
        plaintext@.len() < aead_max_len(),
    ensures
        r@ == aead_sealed(key@, nonce@, plaintext@),
        r@.len() == plaintext@.len() + 16,
{
    let cipher = chacha20poly1305::ChaCha20Poly1305::new(chacha20poly1305::Key::from_slice(key));
    cipher.encrypt(chacha20poly1305::Nonce::from_slice(nonce), plaintext).unwrap()
}

/// `ChaCha20Poly1305::new(key).decrypt(nonce, ciphertext).ok()`. Opening gives
/// back what sealing with the same key and nonce took; a plaintext comes out
/// only of its own ciphertext, since the tag is checked.
#[verifier::external_body]
pub(crate) fn aead_open(key: &[u8; 32], nonce: &[u8; 12], ciphertext: &[u8]) -> (r: Option<Vec<u8>>)
    ensures
        r is Some ==> ciphertext@ == aead_sealed(key@, nonce@, r.unwrap()@),
        forall|p: Seq<u8>|
            p.len() < aead_max_len() && ciphertext@ == aead_sealed(key@, nonce@, p) ==> r is Some && r.unwrap()@ == p,
{
    let cipher = chacha20poly1305::ChaCha20Poly1305::new(chacha20poly1305::Key::from_slice(key));
    cipher.decrypt(chacha20poly1305::Nonce::from_slice(nonce), ciphertext).ok()
}

// ---------------------------------------------------------------------------
// Randomness
// ---------------------------------------------------------------------------

/// 32 bytes from the operating system's random source.
#[verifier::external_body]
pub(crate) fn random_bytes_32() -> (r: [u8; 32]) {
    let mut bytes = [0u8; 32];
    rand::RngCore::fill_bytes(&mut rand::rngs::OsRng, &mut bytes);
    bytes
}

/// 12 bytes from the operating system's random source.
#[verifier::external_body]
pub(crate) fn random_bytes_12() -> (r: [u8; 12]) {
    let mut bytes = [0u8; 12];
    rand::RngCore::fill_bytes(&mut rand::rngs::OsRng, &mut bytes);
    bytes
}

} // verus!
