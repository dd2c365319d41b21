//! Delta bundles: the unit of sync.
//!
//! A bundle captures the record changes of a namespace branch since the
//! last sync. Its serialized form is sealed with the namespace key and
//! pushed to the backend as a [`SealedDelta`], next to cleartext metadata
//! that lets deltas be listed and filtered without decrypting them.

use vstd::prelude::*;
use vstd::string::*;
use crate::crypto::encryption::{SealedBox, seals};
use crate::crypto::keychain::NamespaceKey;
use crate::crypto::primitives::aead_max_len;
use crate::error::SyncError;
use crate::record::Record;

verus! {

/// A batch of record changes to sync.
#[derive(Debug)]
pub struct DeltaBundle {
    /// Device that produced the delta.
    pub device_id: String,
    /// Namespace of the delta.
    pub namespace: String,
    /// Branch the delta applies to.
    pub branch: String,
    /// Records with `created_at_ms > from_cursor` are included.
    pub from_cursor: u64,
    /// Records with `created_at_ms <= to_cursor` are included.
    pub to_cursor: u64,
    /// New or changed records.
    pub records: Vec<Record>,
    /// IDs of deleted records.
    pub tombstones: Vec<String>,
    /// When the delta was created.
    pub created_at_ms: u64,
}

/// Cleartext metadata of a sealed delta.
#[derive(Debug)]
pub struct DeltaMetadata {
    pub device_id: String,
    pub namespace: String,
    pub branch: String,
    pub from_cursor: u64,
    pub to_cursor: u64,
    pub record_count: usize,
    pub tombstone_count: usize,
    pub created_at_ms: u64,
}

/// An encrypted delta: cleartext metadata and the sealed bundle.
#[derive(Debug)]
pub struct SealedDelta {
    /// Metadata, readable without decryption.
    pub metadata: DeltaMetadata,
    /// The sealed serialized bundle (ChaCha20-Poly1305 under the namespace key).
    pub sealed: SealedBox,
}

/// Whether `m` is the metadata of bundle `b`.
pub open spec fn describes(m: DeltaMetadata, b: DeltaBundle) -> bool {
    &&& m.device_id@ == b.device_id@
    &&& m.namespace@ == b.namespace@
    &&& m.branch@ == b.branch@
    &&& m.from_cursor == b.from_cursor
    &&& m.to_cursor == b.to_cursor
    &&& m.record_count == b.records@.len()
    &&& m.tombstone_count == b.tombstones@.len()
    &&& m.created_at_ms == b.created_at_ms
}

impl DeltaBundle {
    /// The bundle's metadata.
    pub fn metadata(&self) -> (r: DeltaMetadata)
        ensures
            describes(r, *self),
    {
        DeltaMetadata {
            device_id: self.device_id.clone(),
            namespace: self.namespace.clone(),
            branch: self.branch.clone(),
            from_cursor: self.from_cursor,
            to_cursor: self.to_cursor,
            record_count: self.records.len(),
            tombstone_count: self.tombstones.len(),
            created_at_ms: self.created_at_ms,
        }
    }
}

/// Seals the serialized form `payload` of `bundle` with the namespace key,
/// next to the bundle's metadata.
pub fn seal_delta(bundle: &DeltaBundle, payload: &[u8], ns_key: &NamespaceKey) -> (r: Result<SealedDelta, SyncError>)
    requires
        payload@.len() < aead_max_len(),
    ensures
        r matches Ok(s) && describes(s.metadata, *bundle) && seals(ns_key.key_bytes(), s.sealed, payload@),
{
    let metadata = bundle.metadata();
    let sealed = ns_key.encrypt(payload);
    Ok(SealedDelta { metadata, sealed })
}

/// Opens a sealed delta with the namespace key, giving back the serialized
/// bundle. It succeeds on what [`seal_delta`] sealed under the same key,
/// and fails with `Decryption` when the payload does not authenticate.
pub fn open_delta(sealed: &SealedDelta, ns_key: &NamespaceKey) -> (r: Result<Vec<u8>, SyncError>)
    ensures
        r matches Ok(p) ==> seals(ns_key.key_bytes(), sealed.sealed, p@),
        forall|p: Seq<u8>| p.len() < aead_max_len() && seals(ns_key.key_bytes(), sealed.sealed, p)
            ==> (r matches Ok(q) && q@ == p),
        r matches Err(e) ==> (e matches SyncError::Decryption(m)
            && m@ == "decryption failed: ciphertext is corrupted or key is wrong"@),
{
    match ns_key.decrypt(&sealed.sealed) {
        Ok(p) => Ok(p),
        Err(_) => Err(SyncError::Decryption(String::from_str("decryption failed: ciphertext is corrupted or key is wrong"))),
    }
}

} // verus!
