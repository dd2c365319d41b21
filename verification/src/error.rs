//! Error types of the library.

use vstd::prelude::*;

verus! {

/// Errors of the core model: schemas, branches, canonical encoding, records.
#[derive(Debug)]
pub enum CoreError {
    /// A value could not be encoded canonically.
    Canonicalization(String),
    /// A schema ID is already registered with another version.
    DuplicateSchema(String),
    /// No schema is registered under the ID.
    SchemaNotFound(String),
    /// Data does not conform to its schema.
    SchemaValidation(String),
    /// The branch is not active.
    BranchNotActive(String),
    /// A record's signature does not verify.
    InvalidSignature(String),
}

} // verus!

verus! {

/// Errors of the cryptographic layer.
#[derive(Debug)]
pub enum CryptoError {
    InvalidSignature,
    InvalidKeyLength { expected: usize, got: usize },
    DecryptionFailed,
    KeyDerivationFailed(String),
    Base64Decode(base64::DecodeError),
    Serialization(String),
}

} // verus!

verus! {

/// Errors of the authorization layer.
#[derive(Debug)]
pub enum AuthError {
    /// Access denied.
    AccessDenied(String),
    /// A consent proof is invalid.
    InvalidConsent(String),
    /// A consent proof has expired.
    ConsentExpired,
    /// A delegation credential is invalid.
    InvalidDelegation(String),
    /// A delegation credential has expired.
    DelegationExpired,
    /// The requested scope is not granted.
    ScopeDenied(String),
    /// A cryptographic check failed.
    Crypto(CryptoError),
    /// A core operation failed.
    Core(CoreError),
    /// A value could not be serialized.
    Serialization(String),
}

} // verus!

verus! {

/// Errors of sync: backends, sealing and opening deltas.
#[derive(Debug)]
pub enum SyncError {
    /// A backend's storage failed.
    Io(String),
    /// A delta could not be encoded or decoded.
    Serialization(String),
    /// A sealed delta could not be decrypted.
    Decryption(String),
}

} // verus!

verus! {

/// Errors of storage engines.
#[derive(Debug)]
pub enum StorageError {
    /// The database failed.
    Database(String),
    /// A stored value could not be encoded or decoded.
    Serialization(String),
    /// No such record.
    RecordNotFound(String),
    /// No such namespace.
    NamespaceNotFound(String),
    /// The namespace already exists.
    NamespaceExists(String),
    /// No such branch.
    BranchNotFound(String),
    /// The branch is not active.
    BranchNotActive(String),
    /// No such schema.
    SchemaNotFound(String),
    /// The branch conflicts with its parent.
    MergeConflict(String),
    /// The write-ahead log failed.
    Wal(String),
    /// An I/O operation failed.
    Io(String),
    /// A core operation failed.
    Core(CoreError),
}

/// Errors of queries.
#[derive(Debug)]
pub enum QueryError {
    /// The requester may not read what the query asks for.
    AccessDenied(String),
    /// The filter is malformed.
    InvalidFilter(String),
    /// The pagination cursor is malformed.
    InvalidCursor(String),
    /// No such namespace.
    NamespaceNotFound(String),
    /// The storage engine failed.
    Storage(StorageError),
    /// The authorization layer failed.
    Auth(AuthError),
    /// A value could not be encoded or decoded.
    Serialization(String),
}

} // verus!
