//! The storage engine interface: namespaces, schemas, branches and
//! records, as every backend provides them.

use vstd::prelude::*;
use crate::branch::{Branch, MergeResult};
use crate::error::StorageError;
use crate::namespace::Namespace;
use crate::record::Record;
use crate::schema::Schema;

verus! {

/// A record with its position in an engine's write log, for tailing.
///
/// `seq` grows with every write: a later write has a higher `seq` than an
/// earlier one. Merges do not produce new positions, and deleted records
/// are left out of tails.
#[derive(Debug)]
pub struct TailEntry {
    /// Position in the write log.
    pub seq: u64,
    /// Branch the record was written to.
    pub branch: String,
    /// The record.
    pub record: Record,
}

/// The interface of a storage backend.
pub trait StorageEngine {
    /// Whether the backend states its contents through [`namespace_owner`]
    /// and [`lists`], and its reads of namespaces and records do not fail:
    /// what the verified in-memory backend of this library does. The
    /// contracts below hold of a backend that does.
    ///
    /// [`namespace_owner`]: StorageEngine::namespace_owner
    /// [`lists`]: StorageEngine::lists
    open spec fn obeys_storage_spec(&self) -> bool {
        false
    }

    /// The owner of namespace `id`, when it exists.
    open spec fn namespace_owner(&self, id: Seq<char>) -> Option<Seq<u8>> {
        None
    }

    /// Whether `v` is what listing the records in scope (an optional schema
    /// and namespace) visible from `branch` gives, after `offset` and at
    /// most `limit` long.
    open spec fn lists(
        &self,
        branch: Seq<char>,
        schema: Option<Seq<char>>,
        namespace: Option<Seq<char>>,
        v: Seq<Record>,
        limit: usize,
        offset: usize,
    ) -> bool {
        false
    }

    /// Creates a namespace and its main branch.
    fn create_namespace(&mut self, namespace: Namespace) -> Result<(), StorageError>;

    /// The namespace with ID `id`.
    fn get_namespace(&self, id: &str) -> (r: Result<Option<Namespace>, StorageError>)
        ensures
            self.obeys_storage_spec() ==> r is Ok,
            self.obeys_storage_spec() ==> (r matches Ok(o) ==> (o is Some <==> self.namespace_owner(id@) is Some)),
            self.obeys_storage_spec() ==> (r matches Ok(Some(ns)) ==> ns.id@ == id@
                && self.namespace_owner(id@) == Some(ns.owner@)),
    ;

    /// All namespaces.
    fn list_namespaces(&self) -> Result<Vec<Namespace>, StorageError>;

    /// Registers a schema in its namespace.
    fn register_schema(&mut self, schema: Schema) -> Result<(), StorageError>;

    /// The schema with ID `schema_id`.
    fn get_schema(&self, schema_id: &str) -> Result<Option<Schema>, StorageError>;

    /// The schemas of a namespace.
    fn list_schemas(&self, namespace: &str) -> Result<Vec<Schema>, StorageError>;

    /// Creates a branch off an existing parent.
    fn create_branch(&mut self, branch: Branch) -> Result<(), StorageError>;

    /// The branch with ID `branch_id`.
    fn get_branch(&self, branch_id: &str) -> Result<Option<Branch>, StorageError>;

    /// The branches of a namespace.
    fn list_branches(&self, namespace: &str) -> Result<Vec<Branch>, StorageError>;

    /// Merges a branch into its parent; the result lists any conflicts
    /// (records changed on both), and a merge with conflicts moves nothing.
    fn merge_branch(&mut self, branch_id: &str) -> Result<MergeResult, StorageError>;

    /// Stores a record on a branch.
    fn put_record(&mut self, record: Record, branch: &str) -> Result<(), StorageError>;

    /// The record `record_id` as seen from `branch` and its ancestors.
    fn get_record(&self, record_id: &str, branch: &str) -> Result<Option<Record>, StorageError>;

    /// Whether the record is visible from `branch`.
    fn has_record(&self, record_id: &str, branch: &str) -> Result<bool, StorageError>;

    /// Records of a schema visible from a branch, newest first, paged.
    fn list_records_by_schema(&self, schema: &str, branch: &str, limit: usize, offset: usize) -> (r: Result<
        Vec<Record>,
        StorageError,
    >)
        ensures
            self.obeys_storage_spec() ==> r is Ok,
            self.obeys_storage_spec() ==> (r matches Ok(v) ==> self.lists(branch@, Some(schema@), None, v@, limit,
                offset)),
    ;

    /// Records of a namespace visible from a branch, newest first, paged.
    fn list_records_by_namespace(&self, namespace: &str, branch: &str, limit: usize, offset: usize) -> (r: Result<
        Vec<Record>,
        StorageError,
    >)
        ensures
            self.obeys_storage_spec() ==> r is Ok,
            self.obeys_storage_spec() ==> (r matches Ok(v) ==> self.lists(branch@, None, Some(namespace@), v@, limit,
                offset)),
    ;

    /// How many records of a schema are visible from a branch.
    fn count_records_by_schema(&self, schema: &str, branch: &str) -> (r: Result<u64, StorageError>)
        ensures
            self.obeys_storage_spec() ==> r is Ok,
            self.obeys_storage_spec() ==> (r matches Ok(n) ==> exists|all: Seq<Record>| self.lists(branch@,
                Some(schema@), None, all, usize::MAX, 0) && n == all.len()),
    ;

    /// Deletes (tombstones) a record on a branch.
    fn delete_record(&mut self, record_id: &str, branch: &str) -> Result<(), StorageError>;

    /// Up to `limit` writes of a namespace after position `after_seq`, in
    /// log order, optionally on one branch only.
    fn tail_records(&self, namespace: &str, after_seq: u64, limit: usize, branch_filter: Option<&str>) -> Result<
        Vec<TailEntry>,
        StorageError,
    >;
}

} // verus!
