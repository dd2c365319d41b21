//! Namespaces: data isolation between apps.
//!
//! Each app writes to its own namespace; cross-namespace reads require
//! consent. Namespace IDs use reverse-domain notation (e.g.
//! "ainp.commerce", "health.vitals").

use vstd::prelude::*;
use crate::clock::current_time_ms;
use crate::crypto::identity::VerifyingKey;
use crate::json::str_equal;
use crate::record::opt_str_view;

verus! {

broadcast use vstd::std_specs::vec::group_vec_axioms, vstd::seq::group_seq_axioms;

/// Namespace identifier (reverse-domain string).
pub type NamespaceId = String;

/// A namespace registration.
#[derive(Debug)]
pub struct Namespace {
    /// Unique namespace identifier.
    pub id: NamespaceId,
    /// Human-readable name.
    pub name: String,
    /// The app or agent that owns the namespace.
    pub owner: VerifyingKey,
    /// What data the namespace holds.
    pub description: Option<String>,
    /// Creation time (ms since epoch).
    pub created_at_ms: u64,
    /// Whether the namespace is encrypted at rest.
    pub encrypted: bool,
    /// Schema IDs registered in the namespace, in registration order.
    pub schemas: Vec<String>,
}

/// The views of a list of strings.
pub open spec fn str_views(s: Seq<String>) -> Seq<Seq<char>> {
    s.map_values(|x: String| x@)
}

/// The schema IDs `ids` after adding `id`, once.
pub open spec fn with_schema(ids: Seq<Seq<char>>, id: Seq<char>) -> Seq<Seq<char>> {
    if ids.contains(id) {
        ids
    } else {
        ids.push(id)
    }
}

/// Adding schema IDs keeps each ID listed once.
pub proof fn schema_ids_stay_unique(ids: Seq<Seq<char>>, id: Seq<char>)
    requires
        ids.no_duplicates(),
    ensures
        with_schema(ids, id).no_duplicates(),
        with_schema(ids, id).contains(id),
{
    if !ids.contains(id) {
        let t = ids.push(id);
        assert forall|a: int, b: int| 0 <= a < t.len() && 0 <= b < t.len() && a != b implies t[a] != t[b] by {
            if a == ids.len() {
                assert(!ids.contains(t[b]) || t[b] != id);
            } else if b == ids.len() {
                if t[a] == id {
                    assert(ids.contains(id));
                }
            }
        }
        assert(t[ids.len() as int] == id);
    }
}

impl Namespace {
    /// A new namespace with no schemas, stamped with the current time.
    pub fn new(id: String, name: String, owner: VerifyingKey, encrypted: bool) -> (r: Namespace)
        ensures
            r.id@ == id@,
            r.name@ == name@,
            r.owner@ == owner@,
            r.description is None,
            r.encrypted == encrypted,
            r.schemas@.len() == 0,
    {
        let created_at_ms = current_time_ms();
        Namespace {
            id,
            name,
            owner,
            description: None,
            created_at_ms,
            encrypted,
            schemas: Vec::new(),
        }
    }

    /// Whether `key` owns this namespace.
    pub fn is_owner(&self, key: &VerifyingKey) -> (r: bool)
        ensures
            r == (self.owner@ == key@),
    {
        self.owner.same_as(key)
    }

    /// Adds a schema ID to the namespace, once.
    pub fn register_schema(&mut self, schema_id: String)
        ensures
            str_views(final(self).schemas@) == with_schema(str_views(old(self).schemas@), schema_id@),
            final(self).id == old(self).id,
            final(self).name == old(self).name,
            final(self).owner == old(self).owner,
            final(self).description == old(self).description,
            final(self).created_at_ms == old(self).created_at_ms,
            final(self).encrypted == old(self).encrypted,
    {
        let mut i: usize = 0;
        while i < self.schemas.len()
            invariant
                i <= self.schemas@.len(),
                forall|j: int| 0 <= j < i ==> self.schemas@[j]@ != schema_id@,
            decreases self.schemas@.len() - i,
        {
            if str_equal(self.schemas[i].as_str(), schema_id.as_str()) {
                proof {
                    assert(str_views(self.schemas@)[i as int] == schema_id@);
                }
                return;
            }
            i += 1;
        }
        proof {
            if str_views(self.schemas@).contains(schema_id@) {
                let j = choose|j: int| 0 <= j < str_views(self.schemas@).len() && str_views(self.schemas@)[j] == schema_id@;
                assert(self.schemas@[j]@ == schema_id@);
            }
        }
        let ghost before = self.schemas@;
        self.schemas.push(schema_id);
        proof {
            assert(str_views(self.schemas@) =~= str_views(before).push(schema_id@));
        }
    }
}

impl Clone for Namespace {
    fn clone(&self) -> (r: Self)
        ensures
            r.id == self.id,
            r.name == self.name,
            r.owner@ == self.owner@,
            opt_str_view(r.description) == opt_str_view(self.description),
            r.created_at_ms == self.created_at_ms,
            r.encrypted == self.encrypted,
            str_views(r.schemas@) == str_views(self.schemas@),
    {
        let mut schemas: Vec<String> = Vec::new();
        let mut i: usize = 0;
        while i < self.schemas.len()
            invariant
                i <= self.schemas@.len(),
                schemas@ == self.schemas@.take(i as int),
            decreases self.schemas@.len() - i,
        {
            schemas.push(self.schemas[i].clone());
            assert(self.schemas@.take(i + 1) =~= self.schemas@.take(i as int).push(self.schemas@[i as int]));
            i += 1;
        }
        assert(self.schemas@.take(self.schemas@.len() as int) =~= self.schemas@);
        let description = match &self.description {
            Some(d) => Some(d.clone()),
            None => None,
        };
        Namespace {
            id: self.id.clone(),
            name: self.name.clone(),
            owner: self.owner.clone(),
            description,
            created_at_ms: self.created_at_ms,
            encrypted: self.encrypted,
            schemas,
        }
    }
}

} // verus!
