//! X25519 key exchange and ChaCha20-Poly1305 sealing, used for end-to-end
//! encrypted exchange between devices and for namespace encryption at rest.

use vstd::prelude::*;
use crate::crypto::encoding::lemma_base64_injective;
use crate::crypto::identity::array32;
use crate::crypto::primitives::{
    aead_max_len, aead_open, aead_seal, aead_sealed, base64_decode, base64_encode, base64_text,
    blake3_derive_key, blake3_derived_key, random_bytes_12, random_bytes_32, x25519_derive_public,
    x25519_diffie_hellman, x25519_public_key, x25519_shared,
};
use crate::error::CryptoError;

verus! {

/// X25519 private key.
pub struct DecryptionKey {
    secret: [u8; 32],
}

/// X25519 public key, shared with peers.
#[derive(Debug)]
pub struct EncryptionKey {
    public: [u8; 32],
}

/// A 32-byte symmetric key derived from an X25519 exchange.
pub struct SharedSecret {
    key: [u8; 32],
}

/// A sealed payload: the nonce and the ciphertext with its 16-byte tag.
#[derive(Debug)]
pub struct SealedBox {
    pub nonce: [u8; 12],
    pub ciphertext: Vec<u8>,
}

impl View for DecryptionKey {
    type V = Seq<u8>;

    closed spec fn view(&self) -> Seq<u8> {
        self.secret@
    }
}

impl View for EncryptionKey {
    type V = Seq<u8>;

    closed spec fn view(&self) -> Seq<u8> {
        self.public@
    }
}

impl View for SharedSecret {
    type V = Seq<u8>;

    closed spec fn view(&self) -> Seq<u8> {
        self.key@
    }
}

/// The domain-separation context of end-to-end exchange keys.
pub open spec fn exchange_context() -> Seq<char> {
    "hellodb-e2e-v0"@
}

/// The shared key of an exchange between `secret` and `peer_public`.
pub open spec fn exchange_key(secret: Seq<u8>, peer_public: Seq<u8>) -> Seq<u8> {
    blake3_derived_key(exchange_context(), x25519_shared(secret, peer_public))
}

/// Whether `sealed` is the sealing of `plaintext` under `key`.
pub open spec fn seals(key: Seq<u8>, sealed: SealedBox, plaintext: Seq<u8>) -> bool {
    sealed.ciphertext@ == aead_sealed(key, sealed.nonce@, plaintext)
}

impl DecryptionKey {
    /// A new random key from OS entropy.
    pub fn generate() -> (k: DecryptionKey)
        ensures
            k@.len() == 32,
    {
        DecryptionKey { secret: random_bytes_32() }
    }

    /// The key of a raw 32-byte scalar.
    pub fn from_bytes(bytes: [u8; 32]) -> (k: DecryptionKey)
        ensures
            k@ == bytes@,
    {
        DecryptionKey { secret: bytes }
    }

    /// The raw scalar.
    pub fn to_bytes(&self) -> (r: [u8; 32])
        ensures
            r@ == self@,
    {
        self.secret
    }

    /// The corresponding public key.
    pub fn encryption_key(&self) -> (k: EncryptionKey)
        ensures
            k@ == x25519_public_key(self@),
    {
        EncryptionKey { public: x25519_derive_public(&self.secret) }
    }

    /// X25519 exchange with a peer's public key, followed by BLAKE3 key
    /// derivation. Both parties of an exchange get the same key.
    pub fn exchange(&self, peer: &EncryptionKey) -> (s: SharedSecret)
        ensures
            s@ == exchange_key(self@, peer@),
            forall|other: Seq<u8>|
                other.len() == 32 && peer@ == x25519_public_key(other) ==> s@ == exchange_key(
                    other,
                    x25519_public_key(self@),
                ),
    {
        let raw = x25519_diffie_hellman(&self.secret, &peer.public);
        SharedSecret { key: blake3_derive_key("hellodb-e2e-v0", raw.as_slice()) }
    }
}

impl EncryptionKey {
    /// The key of a raw 32-byte Montgomery point.
    pub fn from_bytes(bytes: [u8; 32]) -> (k: EncryptionKey)
        ensures
            k@ == bytes@,
    {
        EncryptionKey { public: bytes }
    }

    /// The raw 32 bytes.
    pub fn to_bytes(&self) -> (r: [u8; 32])
        ensures
            r@ == self@,
    {
        self.public
    }

    /// The key as URL-safe base64 text without padding.
    pub fn to_base64(&self) -> (r: String)
        ensures
            r@ == base64_text(self@),
    {
        base64_encode(self.public.as_slice())
    }

    /// The key encoded by URL-safe base64 text without padding.
    pub fn from_base64(s: &str) -> (r: Result<EncryptionKey, CryptoError>)
        ensures
            r matches Ok(k) ==> base64_text(k@) == s@,
            r matches Ok(k) ==> forall|b: Seq<u8>| base64_text(b) == s@ ==> k@ == b,
            (exists|b: Seq<u8>| base64_text(b) == s@ && b.len() == 32) ==> r is Ok,
            r matches Err(e) ==> {
                ||| (forall|b: Seq<u8>| base64_text(b) != s@) && e is Base64Decode
                ||| (exists|b: Seq<u8>| base64_text(b) == s@ && b.len() != 32) && e is InvalidKeyLength
            },
    {
        let bytes = match base64_decode(s) {
            Ok(b) => b,
            Err(e) => {
                return Err(CryptoError::Base64Decode(e));
            },
        };
        proof {
            assert forall|b: Seq<u8>| base64_text(b) == s@ implies b == bytes@ by {
                lemma_base64_injective(b, bytes@);
            }
        }
        if bytes.len() != 32 {
            return Err(CryptoError::InvalidKeyLength { expected: 32, got: bytes.len() });
        }
        Ok(EncryptionKey::from_bytes(array32(bytes.as_slice())))
    }

    /// Whether two keys are the same.
    pub fn same_as(&self, other: &EncryptionKey) -> (r: bool)
        ensures
            r == (self@ == other@),
    {
        crate::crypto::identity::bytes_equal(self.public.as_slice(), other.public.as_slice())
    }
}

impl Clone for EncryptionKey {
    fn clone(&self) -> (r: Self)
        ensures
            r@ == self@,
    {
        EncryptionKey { public: self.public }
    }
}

impl PartialEq for EncryptionKey {
    fn eq(&self, other: &Self) -> (r: bool) {
        self.same_as(other)
    }
}

impl vstd::std_specs::cmp::PartialEqSpecImpl for EncryptionKey {
    open spec fn obeys_eq_spec() -> bool {
        true
    }

    open spec fn eq_spec(&self, other: &Self) -> bool {
        self@ == other@
    }
}

impl Eq for EncryptionKey {}

impl Clone for SealedBox {
    fn clone(&self) -> (r: Self)
        ensures
            r.nonce@ == self.nonce@,
            r.ciphertext@ == self.ciphertext@,
    {
        SealedBox { nonce: self.nonce, ciphertext: self.ciphertext.clone() }
    }
}

impl SharedSecret {
    /// The 32 key bytes.
    pub fn to_bytes(&self) -> (r: [u8; 32])
        ensures
            r@ == self@,
    {
        self.key
    }
}

/// Seals `plaintext` under the shared key, with a fresh random nonce.
pub fn seal(shared: &SharedSecret, plaintext: &[u8]) -> (r: SealedBox)
    requires
        plaintext@.len() < aead_max_len(),
    ensures
        seals(shared@, r, plaintext@),
        r.ciphertext@.len() == plaintext@.len() + 16,
{
    let nonce = random_bytes_12();
    let ciphertext = aead_seal(&shared.key, &nonce, plaintext);
    SealedBox { nonce, ciphertext }
}

/// Opens a sealed box with the shared key: gives back exactly the plaintext
/// that was sealed, and fails on a box that is not a sealing under this key.
pub fn open(shared: &SharedSecret, sealed: &SealedBox) -> (r: Result<Vec<u8>, CryptoError>)
    ensures
        r matches Ok(p) ==> seals(shared@, *sealed, p@),
        forall|p: Seq<u8>| p.len() < aead_max_len() && seals(shared@, *sealed, p) ==> (r matches Ok(q) && q@ == p),
        r matches Err(e) ==> e is DecryptionFailed,
{
    match aead_open(&shared.key, &sealed.nonce, sealed.ciphertext.as_slice()) {
        Some(p) => Ok(p),
        None => Err(CryptoError::DecryptionFailed),
    }
}

/// Seals `plaintext` directly under a 32-byte symmetric key.
pub fn seal_with_key(key: &[u8; 32], plaintext: &[u8]) -> (r: SealedBox)
    requires
        plaintext@.len() < aead_max_len(),
    ensures
        seals(key@, r, plaintext@),
        r.ciphertext@.len() == plaintext@.len() + 16,
{
    let shared = SharedSecret { key: *key };
    seal(&shared, plaintext)
}

/// Opens a sealed box directly with a 32-byte symmetric key.
pub fn open_with_key(key: &[u8; 32], sealed: &SealedBox) -> (r: Result<Vec<u8>, CryptoError>)
    ensures
        r matches Ok(p) ==> seals(key@, *sealed, p@),
        forall|p: Seq<u8>| p.len() < aead_max_len() && seals(key@, *sealed, p) ==> (r matches Ok(q) && q@ == p),
        r matches Err(e) ==> e is DecryptionFailed,
{
    let shared = SharedSecret { key: *key };
    assert(shared@ == key@);
    open(&shared, sealed)
}

} // verus!
