//! Delegation credentials.
//!
//! A user delegates limited authority to agents or apps, which may then
//! act within the granted scopes and namespaces until the credential
//! expires, runs out of queries, or is revoked.

use vstd::prelude::*;
use vstd::string::*;
use crate::canonical::{canonical_bytes, canonicalize};
use crate::crypto::hash::content_hash;
use crate::crypto::identity::{Signature, SigningKey, VerifyingKey};
use crate::crypto::primitives::{base64_text, blake3_digest, ed25519_accepts, ed25519_public_key,
    ed25519_signature, hex_text};
use crate::error::AuthError;
use crate::json::{JsonNumber, JsonValue, JsonView, entry_views, insert_all, lemma_entry_views,
    lemma_views_of, str_equal, views_of};
use crate::namespace::str_views;

verus! {

broadcast use vstd::std_specs::vec::group_vec_axioms, vstd::seq::group_seq_axioms;

/// What a delegate may do.
#[derive(Debug, Clone, Copy, PartialEq, Eq, Structural)]
pub enum DelegationScope {
    /// Read records of a namespace.
    ReadNamespace,
    /// Write records to a namespace.
    WriteNamespace,
    /// Query across several namespaces.
    CrossNamespaceQuery,
    /// Create namespaces.
    CreateNamespace,
    /// Manage branches within a namespace.
    ManageBranches,
    /// Every scope.
    Full,
}

/// The snake_case name of a scope, as it is signed.
pub open spec fn scope_name(s: DelegationScope) -> Seq<char> {
    match s {
        DelegationScope::ReadNamespace => "read_namespace"@,
        DelegationScope::WriteNamespace => "write_namespace"@,
        DelegationScope::CrossNamespaceQuery => "cross_namespace_query"@,
        DelegationScope::CreateNamespace => "create_namespace"@,
        DelegationScope::ManageBranches => "manage_branches"@,
        DelegationScope::Full => "full"@,
    }
}

/// The snake_case name of a scope.
pub fn scope_str(s: DelegationScope) -> (r: &'static str)
    ensures
        r@ == scope_name(s),
{
    match s {
        DelegationScope::ReadNamespace => "read_namespace",
        DelegationScope::WriteNamespace => "write_namespace",
        DelegationScope::CrossNamespaceQuery => "cross_namespace_query",
        DelegationScope::CreateNamespace => "create_namespace",
        DelegationScope::ManageBranches => "manage_branches",
        DelegationScope::Full => "full",
    }
}

/// A signed delegation of scoped authority.
#[derive(Debug)]
pub struct DelegationCredential {
    /// Unique ID: the content hash of the signed fields.
    pub delegation_id: String,
    /// The user or device that delegates.
    pub delegator: VerifyingKey,
    /// The agent or app receiving the delegation.
    pub delegate: VerifyingKey,
    /// What the delegate may do.
    pub scopes: Vec<DelegationScope>,
    /// Namespaces the delegation applies to (empty: all).
    pub namespaces: Vec<String>,
    /// Creation time (ms since epoch).
    pub created_at_ms: u64,
    /// Expiry (ms since epoch).
    pub expires_at_ms: u64,
    /// Maximum number of queries (0: unlimited).
    pub max_queries: u64,
    /// Queries performed so far.
    pub queries_used: u64,
    /// Whether the delegation has been revoked.
    pub revoked: bool,
    /// The delegator's signature over the signed fields.
    pub sig: Signature,
}

/// The signed fields of a delegation as a JSON object: `delegator`,
/// `delegate` (base64 keys), `scopes`, `namespaces` when not empty,
/// `created_at_ms`, `expires_at_ms` and `max_queries`.
pub open spec fn delegation_view(
    delegator: Seq<u8>,
    delegate: Seq<u8>,
    scopes: Seq<DelegationScope>,
    namespaces: Seq<Seq<char>>,
    created_at_ms: u64,
    expires_at_ms: u64,
    max_queries: u64,
) -> JsonView {
    let base = seq![
        ("delegator"@, JsonView::Str(base64_text(delegator))),
        ("delegate"@, JsonView::Str(base64_text(delegate))),
        ("scopes"@, JsonView::Array(scopes.map_values(|s: DelegationScope| JsonView::Str(scope_name(s))))),
    ];
    let with_ns = if namespaces.len() == 0 {
        base
    } else {
        base.push(("namespaces"@, JsonView::Array(namespaces.map_values(|n: Seq<char>| JsonView::Str(n)))))
    };
    let all = with_ns
        .push(("created_at_ms"@, JsonView::Number(JsonNumber::PosInt(created_at_ms))))
        .push(("expires_at_ms"@, JsonView::Number(JsonNumber::PosInt(expires_at_ms))))
        .push(("max_queries"@, JsonView::Number(JsonNumber::PosInt(max_queries))));
    JsonView::Object(insert_all(Seq::empty(), all))
}

/// Whether a credential is unrevoked, unexpired and not out of queries at `now_ms`.
pub open spec fn delegation_valid(d: DelegationCredential, now_ms: u64) -> bool {
    &&& !d.revoked
    &&& now_ms <= d.expires_at_ms
    &&& (d.max_queries == 0 || d.queries_used < d.max_queries)
}

/// Whether a credential grants `scope`, directly or through `Full`.
pub open spec fn grants_scope(d: DelegationCredential, scope: DelegationScope) -> bool {
    d.scopes@.contains(DelegationScope::Full) || d.scopes@.contains(scope)
}

/// Whether a credential applies to namespace `ns`.
pub open spec fn covers(d: DelegationCredential, ns: Seq<char>) -> bool {
    d.namespaces@.len() == 0 || str_views(d.namespaces@).contains(ns)
}

impl DelegationCredential {
    /// The bytes the signature and the delegation ID are computed over.
    pub open spec fn signed_bytes(self) -> Seq<u8> {
        canonical_bytes(delegation_view(
            self.delegator@,
            self.delegate@,
            self.scopes@,
            str_views(self.namespaces@),
            self.created_at_ms,
            self.expires_at_ms,
            self.max_queries,
        ))
    }

    /// The canonical bytes of this credential's signed fields.
    pub fn signable_bytes(&self) -> (r: Vec<u8>)
        ensures
            r@ == self.signed_bytes(),
    {
        delegation_bytes(
            &self.delegator,
            &self.delegate,
            &self.scopes,
            &self.namespaces,
            self.created_at_ms,
            self.expires_at_ms,
            self.max_queries,
        )
    }

    /// Creates and signs a delegation valid from `now_ms` for `ttl_ms`.
    pub fn new(
        signing_key: &SigningKey,
        delegate: VerifyingKey,
        scopes: Vec<DelegationScope>,
        namespaces: Vec<String>,
        now_ms: u64,
        ttl_ms: u64,
        max_queries: u64,
    ) -> (r: Result<DelegationCredential, AuthError>)
        requires
            now_ms + ttl_ms <= u64::MAX,
        ensures
            r matches Ok(d) && {
                &&& d.delegator@ == ed25519_public_key(signing_key@)
                &&& d.delegate@ == delegate@
                &&& d.scopes@ == scopes@
                &&& str_views(d.namespaces@) == str_views(namespaces@)
                &&& d.created_at_ms == now_ms
                &&& d.expires_at_ms == now_ms + ttl_ms
                &&& d.max_queries == max_queries
                &&& d.queries_used == 0
                &&& !d.revoked
                &&& d.delegation_id@ == hex_text(blake3_digest(d.signed_bytes()))
                &&& d.sig@ == ed25519_signature(signing_key@, d.signed_bytes())
            },
    {
        let delegator = signing_key.verifying_key();
        let expires_at_ms = now_ms + ttl_ms;
        let bytes = delegation_bytes(&delegator, &delegate, &scopes, &namespaces, now_ms, expires_at_ms, max_queries);
        let delegation_id = content_hash(bytes.as_slice());
        let sig = signing_key.sign(bytes.as_slice());
        Ok(DelegationCredential {
            delegation_id,
            delegator,
            delegate,
            scopes,
            namespaces,
            created_at_ms: now_ms,
            expires_at_ms,
            max_queries,
            queries_used: 0,
            revoked: false,
            sig,
        })
    }

    /// Verifies the delegator's signature over the signed fields.
    pub fn verify_signature(&self) -> (r: Result<(), AuthError>)
        ensures
            r is Ok <==> ed25519_accepts(self.delegator@, self.signed_bytes(), self.sig@),
            r matches Err(e) ==> (e matches AuthError::Crypto(c) && c is InvalidSignature),
            forall|seed: Seq<u8>| seed.len() == 32 && self.delegator@ == ed25519_public_key(seed)
                && self.sig@ == ed25519_signature(seed, self.signed_bytes()) ==> r is Ok,
    {
        let bytes = self.signable_bytes();
        match self.delegator.verify(bytes.as_slice(), &self.sig) {
            Ok(()) => Ok(()),
            Err(e) => Err(AuthError::Crypto(e)),
        }
    }

    /// Whether the delegation is unrevoked, unexpired and has queries left.
    pub fn is_valid(&self, now_ms: u64) -> (r: bool)
        ensures
            r == delegation_valid(*self, now_ms),
    {
        !self.revoked && now_ms <= self.expires_at_ms && (self.max_queries == 0
            || self.queries_used < self.max_queries)
    }

    /// Whether `scope` is granted, directly or through `Full`.
    pub fn has_scope(&self, scope: &DelegationScope) -> (r: bool)
        ensures
            r == grants_scope(*self, *scope),
    {
        let mut i: usize = 0;
        let mut found = false;
        while i < self.scopes.len()
            invariant
                i <= self.scopes@.len(),
                found == exists|j: int| 0 <= j < i && (self.scopes@[j] == DelegationScope::Full
                    || self.scopes@[j] == *scope),
            decreases self.scopes@.len() - i,
        {
            let s = self.scopes[i];
            if s == DelegationScope::Full || s == *scope {
                found = true;
            }
            i += 1;
        }
        proof {
            if found {
                let j = choose|j: int| 0 <= j < self.scopes@.len() && (self.scopes@[j] == DelegationScope::Full
                    || self.scopes@[j] == *scope);
                if self.scopes@[j] == DelegationScope::Full {
                    assert(self.scopes@.contains(DelegationScope::Full));
                } else {
                    assert(self.scopes@.contains(*scope));
                }
            } else {
                if self.scopes@.contains(DelegationScope::Full) {
                    let j = choose|j: int| 0 <= j < self.scopes@.len() && self.scopes@[j] == DelegationScope::Full;
                    assert(self.scopes@[j] == DelegationScope::Full);
                }
                if self.scopes@.contains(*scope) {
                    let j = choose|j: int| 0 <= j < self.scopes@.len() && self.scopes@[j] == *scope;
                    assert(self.scopes@[j] == *scope);
                }
            }
        }
        found
    }

    /// Whether the delegation applies to `namespace` (an empty list covers all).
    pub fn covers_namespace(&self, namespace: &str) -> (r: bool)
        ensures
            r == covers(*self, namespace@),
    {
        if self.namespaces.len() == 0 {
            return true;
        }
        let mut i: usize = 0;
        while i < self.namespaces.len()
            invariant
                i <= self.namespaces@.len(),
                forall|j: int| 0 <= j < i ==> self.namespaces@[j]@ != namespace@,
            decreases self.namespaces@.len() - i,
        {
            if str_equal(self.namespaces[i].as_str(), namespace) {
                proof {
                    assert(str_views(self.namespaces@)[i as int] == namespace@);
                }
                return true;
            }
            i += 1;
        }
        proof {
            if str_views(self.namespaces@).contains(namespace@) {
                let j = choose|j: int| 0 <= j < str_views(self.namespaces@).len() && str_views(self.namespaces@)[j] == namespace@;
                assert(self.namespaces@[j]@ == namespace@);
            }
        }
        false
    }

    /// Counts one query against the limit.
    pub fn record_query(&mut self)
        requires
            old(self).queries_used < u64::MAX,
        ensures
            *final(self) == (DelegationCredential { queries_used: (old(self).queries_used + 1) as u64, ..*old(self) }),
    {
        self.queries_used = self.queries_used + 1;
    }

    /// Revokes the delegation.
    pub fn revoke(&mut self)
        ensures
            *final(self) == (DelegationCredential { revoked: true, ..*old(self) }),
    {
        self.revoked = true;
    }
}

/// A delegation with a query limit of `n` allows exactly `n` queries: it
/// is valid while fewer than `n` were counted (until it expires or is
/// revoked) and never after; a revoked delegation is never valid.
pub proof fn query_limit_and_revocation(d: DelegationCredential, now_ms: u64)
    ensures
        d.revoked ==> !delegation_valid(d, now_ms),
        d.max_queries > 0 && d.queries_used >= d.max_queries ==> !delegation_valid(d, now_ms),
        !d.revoked && now_ms <= d.expires_at_ms && d.queries_used < d.max_queries ==> delegation_valid(d, now_ms),
{
}

impl Clone for DelegationCredential {
    fn clone(&self) -> (r: Self)
        ensures
            r.delegation_id == self.delegation_id,
            r.delegator@ == self.delegator@,
            r.delegate@ == self.delegate@,
            r.scopes@ == self.scopes@,
            str_views(r.namespaces@) == str_views(self.namespaces@),
            r.created_at_ms == self.created_at_ms,
            r.expires_at_ms == self.expires_at_ms,
            r.max_queries == self.max_queries,
            r.queries_used == self.queries_used,
            r.revoked == self.revoked,
            r.sig@ == self.sig@,
    {
        let mut scopes: Vec<DelegationScope> = Vec::new();
        let mut i: usize = 0;
        while i < self.scopes.len()
            invariant
                i <= self.scopes@.len(),
                scopes@ == self.scopes@.take(i as int),
            decreases self.scopes@.len() - i,
        {
            scopes.push(self.scopes[i]);
            assert(self.scopes@.take(i + 1) =~= self.scopes@.take(i as int).push(self.scopes@[i as int]));
            i += 1;
        }
        assert(self.scopes@.take(self.scopes@.len() as int) =~= self.scopes@);
        let mut namespaces: Vec<String> = Vec::new();
        let mut i: usize = 0;
        while i < self.namespaces.len()
            invariant
                i <= self.namespaces@.len(),
                namespaces@ == self.namespaces@.take(i as int),
            decreases self.namespaces@.len() - i,
        {
            namespaces.push(self.namespaces[i].clone());
            assert(self.namespaces@.take(i + 1) =~= self.namespaces@.take(i as int).push(self.namespaces@[i as int]));
            i += 1;
        }
        assert(self.namespaces@.take(self.namespaces@.len() as int) =~= self.namespaces@);
        DelegationCredential {
            delegation_id: self.delegation_id.clone(),
            delegator: self.delegator.clone(),
            delegate: self.delegate.clone(),
            scopes,
            namespaces,
            created_at_ms: self.created_at_ms,
            expires_at_ms: self.expires_at_ms,
            max_queries: self.max_queries,
            queries_used: self.queries_used,
            revoked: self.revoked,
            sig: self.sig.clone(),
        }
    }
}

/// The canonical bytes of a delegation's signed fields.
fn delegation_bytes(
    delegator: &VerifyingKey,
    delegate: &VerifyingKey,
    scopes: &Vec<DelegationScope>,
    namespaces: &Vec<String>,
    created_at_ms: u64,
    expires_at_ms: u64,
    max_queries: u64,
) -> (r: Vec<u8>)
    ensures
        r@ == canonical_bytes(delegation_view(delegator@, delegate@, scopes@, str_views(namespaces@),
            created_at_ms, expires_at_ms, max_queries)),
{
    let ghost scope_views = scopes@.map_values(|s: DelegationScope| JsonView::Str(scope_name(s)));
    let mut scope_items: Vec<JsonValue> = Vec::new();
    let mut i: usize = 0;
    while i < scopes.len()
        invariant
            i <= scopes@.len(),
            scope_views == scopes@.map_values(|s: DelegationScope| JsonView::Str(scope_name(s))),
            views_of(scope_items@) == scope_views.take(i as int),
        decreases scopes@.len() - i,
    {
        let ghost before = scope_items@;
        scope_items.push(JsonValue::string(scope_str(scopes[i])));
        proof {
            crate::json::lemma_views_push(before, scope_items@.last());
            assert(before.push(scope_items@.last()) =~= scope_items@);
            assert(scope_views.take(i + 1) =~= scope_views.take(i as int).push(scope_views[i as int]));
        }
        i += 1;
    }
    assert(scope_views.take(scopes@.len() as int) =~= scope_views);
    let ghost ns_views = str_views(namespaces@).map_values(|n: Seq<char>| JsonView::Str(n));
    let mut ns_items: Vec<JsonValue> = Vec::new();
    let mut i: usize = 0;
    while i < namespaces.len()
        invariant
            i <= namespaces@.len(),
            ns_views == str_views(namespaces@).map_values(|n: Seq<char>| JsonView::Str(n)),
            views_of(ns_items@) == ns_views.take(i as int),
        decreases namespaces@.len() - i,
    {
        let ghost before = ns_items@;
        ns_items.push(JsonValue::String(namespaces[i].clone()));
        proof {
            crate::json::lemma_views_push(before, ns_items@.last());
            assert(before.push(ns_items@.last()) =~= ns_items@);
            assert(ns_views.take(i + 1) =~= ns_views.take(i as int).push(ns_views[i as int]));
        }
        i += 1;
    }
    assert(ns_views.take(namespaces@.len() as int) =~= ns_views);
    let mut pairs: Vec<(String, JsonValue)> = Vec::new();
    pairs.push((String::from_str("delegator"), JsonValue::String(delegator.to_base64())));
    pairs.push((String::from_str("delegate"), JsonValue::String(delegate.to_base64())));
    pairs.push((String::from_str("scopes"), JsonValue::Array(scope_items)));
    let ghost base = seq![
        ("delegator"@, JsonView::Str(base64_text(delegator@))),
        ("delegate"@, JsonView::Str(base64_text(delegate@))),
        ("scopes"@, JsonView::Array(scope_views)),
    ];
    proof {
        lemma_entry_views(pairs@);
        assert(entry_views(pairs@) =~= base);
    }
    let ghost with_ns = if namespaces@.len() == 0 {
        base
    } else {
        base.push(("namespaces"@, JsonView::Array(ns_views)))
    };
    if namespaces.len() > 0 {
        pairs.push((String::from_str("namespaces"), JsonValue::Array(ns_items)));
    }
    pairs.push((String::from_str("created_at_ms"), JsonValue::Number(JsonNumber::PosInt(created_at_ms))));
    pairs.push((String::from_str("expires_at_ms"), JsonValue::Number(JsonNumber::PosInt(expires_at_ms))));
    pairs.push((String::from_str("max_queries"), JsonValue::Number(JsonNumber::PosInt(max_queries))));
    proof {
        lemma_entry_views(pairs@);
        assert(entry_views(pairs@) =~= with_ns
            .push(("created_at_ms"@, JsonView::Number(JsonNumber::PosInt(created_at_ms))))
            .push(("expires_at_ms"@, JsonView::Number(JsonNumber::PosInt(expires_at_ms))))
            .push(("max_queries"@, JsonView::Number(JsonNumber::PosInt(max_queries)))));
    }
    let obj = JsonValue::object(pairs);
    match canonicalize(&obj) {
        Ok(b) => b,
        Err(_) => Vec::new(),
    }
}

} // verus!
