//! Sync: delta bundles sealed with namespace keys, conflict resolution,
//! and the blob-store backends that deltas are pushed to.

pub mod backend;
pub mod conflict;
pub mod delta;
pub mod memory_backend;
