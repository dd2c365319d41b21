//! Content hashing with BLAKE3, used for record IDs, deduplication and integrity.

use vstd::prelude::*;
use crate::crypto::primitives::{blake3_digest, blake3_hash, blake3_hash_hex, hex_text};

verus! {

/// The BLAKE3 hash of `data` as lowercase hex text: the content address of
/// a record.
pub fn content_hash(data: &[u8]) -> (r: String)
    ensures
        r@ == hex_text(blake3_digest(data@)),
{
    blake3_hash_hex(data)
}

/// The raw BLAKE3 hash bytes of `data`.
pub fn content_hash_bytes(data: &[u8]) -> (r: [u8; 32])
    ensures
        r@ == blake3_digest(data@),
{
    blake3_hash(data)
}

} // verus!
