//! Cryptographic primitives: Ed25519 identities, X25519 key exchange,
//! ChaCha20-Poly1305 sealing, BLAKE3 hashing and per-namespace key derivation.

pub mod primitives;
pub mod encoding;
pub mod hash;
pub mod identity;
pub mod encryption;
pub mod keychain;
