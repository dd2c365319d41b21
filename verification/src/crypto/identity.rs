//! Ed25519 identities: signing keys, verifying keys and signatures.
//!
//! Each device or user has a signing key pair used for record
//! authentication and identity.

use vstd::prelude::*;
use crate::crypto::encoding::lemma_base64_injective;
use crate::crypto::primitives::{
    base64_decode, base64_encode, base64_text, blake3_digest, blake3_hash, ed25519_accepts,
    ed25519_check_public, ed25519_derive_public, ed25519_public_key, ed25519_sign, ed25519_signature,
    ed25519_valid_public, ed25519_verify, hex_encode, hex_text, random_bytes_32,
};
use crate::error::CryptoError;

verus! {

/// Ed25519 signing key (private): its 32-byte seed.
pub struct SigningKey {
    seed: [u8; 32],
}

/// Ed25519 verifying key (public): a compressed curve point.
#[derive(Debug, Hash)]
pub struct VerifyingKey {
    bytes: [u8; 32],
}

/// Ed25519 signature (64 bytes).
#[derive(Debug)]
pub struct Signature {
    bytes: [u8; 64],
}

/// A signing key with its verifying key.
pub struct KeyPair {
    pub signing: SigningKey,
    pub verifying: VerifyingKey,
}

/// A signing key is a 32-byte seed.
pub proof fn signing_key_len(k: &SigningKey)
    ensures
        k@.len() == 32,
{
}

impl View for SigningKey {
    type V = Seq<u8>;

    closed spec fn view(&self) -> Seq<u8> {
        self.seed@
    }
}

impl View for VerifyingKey {
    type V = Seq<u8>;

    closed spec fn view(&self) -> Seq<u8> {
        self.bytes@
    }
}

impl View for Signature {
    type V = Seq<u8>;

    closed spec fn view(&self) -> Seq<u8> {
        self.bytes@
    }
}

/// Copies 32 bytes into an array.
pub(crate) fn array32(bytes: &[u8]) -> (r: [u8; 32])
    requires
        bytes@.len() == 32,
    ensures
        r@ == bytes@,
{
    let mut arr = [0u8; 32];
    let mut i: usize = 0;
    while i < 32
        invariant
            i <= 32,
            bytes@.len() == 32,
            forall|j: int| 0 <= j < i ==> arr@[j] == bytes@[j],
        decreases 32 - i,
    {
        arr[i] = bytes[i];
        i += 1;
    }
    assert(arr@ =~= bytes@);
    arr
}

/// Copies 64 bytes into an array.
pub(crate) fn array64(bytes: &[u8]) -> (r: [u8; 64])
    requires
        bytes@.len() == 64,
    ensures
        r@ == bytes@,
{
    let mut arr = [0u8; 64];
    let mut i: usize = 0;
    while i < 64
        invariant
            i <= 64,
            bytes@.len() == 64,
            forall|j: int| 0 <= j < i ==> arr@[j] == bytes@[j],
        decreases 64 - i,
    {
        arr[i] = bytes[i];
        i += 1;
    }
    assert(arr@ =~= bytes@);
    arr
}

/// Whether two byte arrays hold the same bytes.
pub(crate) fn bytes_equal(a: &[u8], b: &[u8]) -> (r: bool)
    ensures
        r == (a@ == b@),
{
    if a.len() != b.len() {
        return false;
    }
    let mut i: usize = 0;
    while i < a.len()
        invariant
            i <= a@.len() == b@.len(),
            forall|j: int| 0 <= j < i ==> a@[j] == b@[j],
        decreases a@.len() - i,
    {
        if a[i] != b[i] {
            return false;
        }
        i += 1;
    }
    assert(a@ =~= b@);
    true
}

impl SigningKey {
    /// A new random signing key from OS entropy.
    pub fn generate() -> (k: SigningKey)
        ensures
            k@.len() == 32,
    {
        SigningKey { seed: random_bytes_32() }
    }

    /// The signing key with the given 32-byte seed.
    pub fn from_bytes(bytes: &[u8; 32]) -> (k: SigningKey)
        ensures
            k@ == bytes@,
    {
        SigningKey { seed: *bytes }
    }

    /// The 32-byte seed.
    pub fn to_bytes(&self) -> (r: [u8; 32])
        ensures
            r@ == self@,
    {
        self.seed
    }

    /// The corresponding verifying key.
    pub fn verifying_key(&self) -> (k: VerifyingKey)
        ensures
            k@ == ed25519_public_key(self@),
    {
        VerifyingKey { bytes: ed25519_derive_public(&self.seed) }
    }

    /// Signs a message.
    pub fn sign(&self, message: &[u8]) -> (s: Signature)
        ensures
            s@ == ed25519_signature(self@, message@),
    {
        Signature { bytes: ed25519_sign(&self.seed, message) }
    }
}

impl Clone for SigningKey {
    fn clone(&self) -> (r: Self)
        ensures
            r@ == self@,
    {
        SigningKey { seed: self.seed }
    }
}

impl VerifyingKey {
    #[verifier::type_invariant]
    spec fn is_point(self) -> bool {
        ed25519_valid_public(self.bytes@)
    }

    /// The verifying key of 32 bytes; an error when they are not a curve point.
    pub fn from_bytes(bytes: &[u8; 32]) -> (r: Result<VerifyingKey, CryptoError>)
        ensures
            r is Ok <==> ed25519_valid_public(bytes@),
            r matches Ok(k) ==> k@ == bytes@,
            r matches Err(e) ==> e is InvalidSignature,
    {
        if ed25519_check_public(bytes) {
            Ok(VerifyingKey { bytes: *bytes })
        } else {
            Err(CryptoError::InvalidSignature)
        }
    }

    /// The 32 key bytes.
    pub fn to_bytes(&self) -> (r: [u8; 32])
        ensures
            r@ == self@,
    {
        self.bytes
    }

    /// The key as URL-safe base64 text without padding: the identity string.
    pub fn to_base64(&self) -> (r: String)
        ensures
            r@ == base64_text(self@),
    {
        base64_encode(self.bytes.as_slice())
    }

    /// The key encoded by URL-safe base64 text without padding.
    pub fn from_base64(s: &str) -> (r: Result<VerifyingKey, CryptoError>)
        ensures
            r matches Ok(k) ==> base64_text(k@) == s@,
            r matches Ok(k) ==> forall|b: Seq<u8>| base64_text(b) == s@ ==> k@ == b,
            (exists|b: Seq<u8>| base64_text(b) == s@ && b.len() == 32 && ed25519_valid_public(b)) ==> r is Ok,
            r matches Err(e) ==> {
                ||| (forall|b: Seq<u8>| base64_text(b) != s@) && e is Base64Decode
                ||| (exists|b: Seq<u8>| base64_text(b) == s@ && b.len() != 32) && e is InvalidKeyLength
                ||| (exists|b: Seq<u8>| base64_text(b) == s@ && b.len() == 32 && !ed25519_valid_public(b))
                    && e is InvalidSignature
            },
    {
        let bytes = match base64_decode(s) {
            Ok(b) => b,
            Err(e) => {
                return Err(CryptoError::Base64Decode(e));
            },
        };
        proof {
            assert forall|b: Seq<u8>| base64_text(b) == s@ implies b == bytes@ by {
                lemma_base64_injective(b, bytes@);
            }
        }
        if bytes.len() != 32 {
            return Err(CryptoError::InvalidKeyLength { expected: 32, got: bytes.len() });
        }
        let arr = array32(bytes.as_slice());
        VerifyingKey::from_bytes(&arr)
    }

    /// Verifies a signature over a message.
    pub fn verify(&self, message: &[u8], signature: &Signature) -> (r: Result<(), CryptoError>)
        ensures
            r is Ok <==> ed25519_accepts(self@, message@, signature@),
            r matches Err(e) ==> e is InvalidSignature,
            forall|seed: Seq<u8>|
                seed.len() == 32 && self@ == ed25519_public_key(seed) && signature@ == ed25519_signature(seed, message@)
                    ==> r is Ok,
    {
        proof {
            use_type_invariant(self);
        }
        if ed25519_verify(&self.bytes, message, &signature.bytes) {
            Ok(())
        } else {
            Err(CryptoError::InvalidSignature)
        }
    }

    /// A short fingerprint: the first 8 bytes of the BLAKE3 hash of the key,
    /// as lowercase hex text.
    pub fn fingerprint(&self) -> (r: String)
        ensures
            r@ == hex_text(blake3_digest(self@).take(8)),
    {
        let hash = blake3_hash(self.bytes.as_slice());
        let mut first: Vec<u8> = Vec::new();
        let mut i: usize = 0;
        while i < 8
            invariant
                i <= 8,
                hash@.len() == 32,
                first@ == hash@.take(i as int),
            decreases 8 - i,
        {
            first.push(hash[i]);
            assert(hash@.take(i + 1) =~= hash@.take(i as int).push(hash@[i as int]));
            i += 1;
        }
        hex_encode(first.as_slice())
    }

    /// Whether two keys are the same.
    pub fn same_as(&self, other: &VerifyingKey) -> (r: bool)
        ensures
            r == (self@ == other@),
    {
        bytes_equal(self.bytes.as_slice(), other.bytes.as_slice())
    }
}

impl Clone for VerifyingKey {
    fn clone(&self) -> (r: Self)
        ensures
            r@ == self@,
    {
        proof {
            use_type_invariant(self);
        }
        VerifyingKey { bytes: self.bytes }
    }
}

impl PartialEq for VerifyingKey {
    fn eq(&self, other: &Self) -> (r: bool) {
        self.same_as(other)
    }
}

impl vstd::std_specs::cmp::PartialEqSpecImpl for VerifyingKey {
    open spec fn obeys_eq_spec() -> bool {
        true
    }

    open spec fn eq_spec(&self, other: &Self) -> bool {
        self@ == other@
    }
}

impl Eq for VerifyingKey {}

impl Signature {
    /// The 64 signature bytes.
    pub fn to_bytes(&self) -> (r: [u8; 64])
        ensures
            r@ == self@,
    {
        self.bytes
    }

    /// The signature of 64 bytes.
    pub fn from_bytes(bytes: &[u8; 64]) -> (s: Signature)
        ensures
            s@ == bytes@,
    {
        Signature { bytes: *bytes }
    }

    /// The signature as URL-safe base64 text without padding.
    pub fn to_base64(&self) -> (r: String)
        ensures
            r@ == base64_text(self@),
    {
        base64_encode(self.bytes.as_slice())
    }

    /// The signature encoded by URL-safe base64 text without padding.
    pub fn from_base64(s: &str) -> (r: Result<Signature, CryptoError>)
        ensures
            r matches Ok(sig) ==> base64_text(sig@) == s@,
            r matches Ok(sig) ==> forall|b: Seq<u8>| base64_text(b) == s@ ==> sig@ == b,
            (exists|b: Seq<u8>| base64_text(b) == s@ && b.len() == 64) ==> r is Ok,
            r matches Err(e) ==> {
                ||| (forall|b: Seq<u8>| base64_text(b) != s@) && e is Base64Decode
                ||| (exists|b: Seq<u8>| base64_text(b) == s@ && b.len() != 64) && e is InvalidKeyLength
            },
    {
        let bytes = match base64_decode(s) {
            Ok(b) => b,
            Err(e) => {
                return Err(CryptoError::Base64Decode(e));
            },
        };
        proof {
            assert forall|b: Seq<u8>| base64_text(b) == s@ implies b == bytes@ by {
                lemma_base64_injective(b, bytes@);
            }
        }
        if bytes.len() != 64 {
            return Err(CryptoError::InvalidKeyLength { expected: 64, got: bytes.len() });
        }
        let arr = array64(bytes.as_slice());
        Ok(Signature::from_bytes(&arr))
    }

    /// Whether two signatures are the same.
    pub fn same_as(&self, other: &Signature) -> (r: bool)
        ensures
            r == (self@ == other@),
    {
        bytes_equal(self.bytes.as_slice(), other.bytes.as_slice())
    }
}

impl Clone for Signature {
    fn clone(&self) -> (r: Self)
        ensures
            r@ == self@,
    {
        Signature { bytes: self.bytes }
    }
}

impl PartialEq for Signature {
    fn eq(&self, other: &Self) -> (r: bool) {
        self.same_as(other)
    }
}

impl vstd::std_specs::cmp::PartialEqSpecImpl for Signature {
    open spec fn obeys_eq_spec() -> bool {
        true
    }

    open spec fn eq_spec(&self, other: &Self) -> bool {
        self@ == other@
    }
}

impl Eq for Signature {}

impl KeyPair {
    /// A new random identity key pair.
    pub fn generate() -> (kp: KeyPair)
        ensures
            kp.verifying@ == ed25519_public_key(kp.signing@),
    {
        let signing = SigningKey::generate();
        let verifying = signing.verifying_key();
        KeyPair { signing, verifying }
    }
}

} // verus!
