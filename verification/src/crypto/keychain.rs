//! Hierarchical key derivation: a device master key derives an independent
//! encryption key for each namespace with BLAKE3 key derivation.

use vstd::prelude::*;
use vstd::string::*;
use crate::crypto::encryption::{open_with_key, seal_with_key, seals, SealedBox};
use crate::crypto::primitives::{aead_max_len, blake3_derive_key, blake3_derived_key, random_bytes_32};
use crate::error::CryptoError;

verus! {

/// Device master key: 32 bytes of secret material.
pub struct MasterKey {
    key: [u8; 32],
}

/// The symmetric key of one namespace, derived from the master key.
pub struct NamespaceKey {
    key: [u8; 32],
    namespace: String,
}

impl View for MasterKey {
    type V = Seq<u8>;

    closed spec fn view(&self) -> Seq<u8> {
        self.key@
    }
}

/// The derivation context of a namespace: `hellodb-ns-v0:{namespace}`.
pub open spec fn namespace_context(namespace: Seq<char>) -> Seq<char> {
    "hellodb-ns-v0:"@ + namespace
}

impl MasterKey {
    /// A new master key from OS entropy.
    pub fn generate() -> (k: MasterKey)
        ensures
            k@.len() == 32,
    {
        MasterKey { key: random_bytes_32() }
    }

    /// The master key of 32 raw bytes.
    pub fn from_bytes(bytes: [u8; 32]) -> (k: MasterKey)
        ensures
            k@ == bytes@,
    {
        MasterKey { key: bytes }
    }

    /// The raw bytes.
    pub fn to_bytes(&self) -> (r: [u8; 32])
        ensures
            r@ == self@,
    {
        self.key
    }

    /// The key of `namespace`: BLAKE3 key derivation with context
    /// `hellodb-ns-v0:{namespace}` from the master key.
    pub fn derive_namespace_key(&self, namespace: &str) -> (k: NamespaceKey)
        ensures
            k.key_bytes() == blake3_derived_key(namespace_context(namespace@), self@),
            k.namespace_name() == namespace@,
    {
        let mut context = String::from_str("hellodb-ns-v0:");
        context.append(namespace);
        proof {
            reveal_strlit("hellodb-ns-v0:");
        }
        let derived = blake3_derive_key(context.as_str(), self.key.as_slice());
        NamespaceKey { key: derived, namespace: String::from_str(namespace) }
    }
}

impl NamespaceKey {
    /// The derived key bytes.
    pub closed spec fn key_bytes(self) -> Seq<u8> {
        self.key@
    }

    /// The namespace the key was derived for.
    pub closed spec fn namespace_name(self) -> Seq<char> {
        self.namespace@
    }

    /// The namespace this key belongs to.
    pub fn namespace(&self) -> (r: &str)
        ensures
            r@ == self.namespace_name(),
    {
        self.namespace.as_str()
    }

    /// Seals `plaintext` with this key (ChaCha20-Poly1305, random nonce).
    pub fn encrypt(&self, plaintext: &[u8]) -> (r: SealedBox)
        requires
            plaintext@.len() < aead_max_len(),
        ensures
            seals(self.key_bytes(), r, plaintext@),
            r.ciphertext@.len() == plaintext@.len() + 16,
    {
        seal_with_key(&self.key, plaintext)
    }

    /// Opens a box sealed with this key.
    pub fn decrypt(&self, sealed: &SealedBox) -> (r: Result<Vec<u8>, CryptoError>)
        ensures
            r matches Ok(p) ==> seals(self.key_bytes(), *sealed, p@),
            forall|p: Seq<u8>|
                p.len() < aead_max_len() && seals(self.key_bytes(), *sealed, p) ==> (r matches Ok(q) && q@ == p),
            r matches Err(e) ==> e is DecryptionFailed,
    {
        open_with_key(&self.key, sealed)
    }

    /// The raw key bytes.
    pub fn to_bytes(&self) -> (r: [u8; 32])
        ensures
            r@ == self.key_bytes(),
    {
        self.key
    }
}

} // verus!
