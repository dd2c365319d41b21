//! The blob store that sync pushes to: a local directory, a bucket, or
//! any key-value store the user controls.

use vstd::prelude::*;
use crate::error::SyncError;

verus! {

/// A blob store. Keys are path-like strings (e.g.
/// `"commerce/deltas/device-a/1234.delta"`); values are opaque bytes.
pub trait SyncBackend {
    /// Stores a blob under `key`, replacing any earlier one.
    fn put_blob(&mut self, key: &str, data: &[u8]) -> Result<(), SyncError>;

    /// The blob under `key`, if any.
    fn get_blob(&self, key: &str) -> Result<Option<Vec<u8>>, SyncError>;

    /// The keys that start with `prefix`.
    fn list_blobs(&self, prefix: &str) -> Result<Vec<String>, SyncError>;

    /// Deletes the blob under `key`; deleting a missing key does nothing.
    fn delete_blob(&mut self, key: &str) -> Result<(), SyncError>;
}

} // verus!
