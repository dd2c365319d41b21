//! The namespace access gate: whether an identity may read, write or
//! query a namespace.
//!
//! A namespace's owner may always read and write it. Anyone else needs a
//! valid consent proof naming them (by base64 key) for the action, or a
//! valid delegation credential with the scope and covering the namespace.

use vstd::prelude::*;
use vstd::string::*;
use crate::auth::consent::{ConsentAction, ConsentProof};
use crate::auth::delegation::{DelegationCredential, DelegationScope, covers, delegation_valid, grants_scope};
use crate::crypto::identity::VerifyingKey;
use crate::crypto::primitives::{base64_text, ed25519_accepts, ed25519_public_key, ed25519_signature};
use crate::error::AuthError;
use crate::json::str_equal;
use crate::namespace::{Namespace, str_views};
use crate::strings::concat3;

verus! {

broadcast use vstd::std_specs::vec::group_vec_axioms, vstd::seq::group_seq_axioms;

/// An access decision.
#[derive(Debug)]
pub enum AccessDecision {
    /// Access granted.
    Allowed,
    /// Access denied, with the reason.
    Denied(String),
}

impl AccessDecision {
    /// Whether access is granted.
    pub fn is_allowed(&self) -> (r: bool)
        ensures
            r == (*self is Allowed),
    {
        match self {
            AccessDecision::Allowed => true,
            AccessDecision::Denied(_) => false,
        }
    }
}

/// Whether consent `c` grants `action` on namespace `ns` to the key
/// `requester` at `now_ms`: the action matches, the target is the
/// requester's base64 key, it has not expired, and it is either not
/// limited to a namespace or limited to `ns`.
pub open spec fn consent_grants(c: ConsentProof, action: ConsentAction, requester: Seq<u8>, ns: Seq<char>, now_ms: u64) -> bool {
    &&& c.action == action
    &&& c.target@ == base64_text(requester)
    &&& c.valid_at(now_ms)
    &&& match c.namespace {
        Some(n) => n@ == ns,
        None => true,
    }
}

/// Whether delegation `d` grants `scope` on namespace `ns` to `requester` at `now_ms`.
pub open spec fn delegation_grants(d: DelegationCredential, scope: DelegationScope, requester: Seq<u8>, ns: Seq<char>, now_ms: u64) -> bool {
    &&& d.delegate@ == requester
    &&& delegation_valid(d, now_ms)
    &&& grants_scope(d, scope)
    &&& covers(d, ns)
}

/// Whether `requester` may act on a namespace with ID `ns_id` owned by
/// `owner`: as owner, through a consent for `action`, or through a
/// delegation with `scope`.
pub open spec fn permitted(
    consents: Seq<ConsentProof>,
    delegations: Seq<DelegationCredential>,
    requester: Seq<u8>,
    owner: Seq<u8>,
    ns_id: Seq<char>,
    now_ms: u64,
    action: ConsentAction,
    scope: DelegationScope,
) -> bool {
    ||| owner == requester
    ||| exists|i: int| 0 <= i < consents.len() && consent_grants(#[trigger] consents[i], action, requester, ns_id, now_ms)
    ||| exists|i: int| 0 <= i < delegations.len() && delegation_grants(#[trigger] delegations[i], scope, requester, ns_id, now_ms)
}

/// Whether delegation `d` lets `agent` query every namespace of `ns_ids` at `now_ms`.
pub open spec fn query_grant(d: DelegationCredential, agent: Seq<u8>, ns_ids: Seq<Seq<char>>, now_ms: u64) -> bool {
    &&& d.delegate@ == agent
    &&& delegation_valid(d, now_ms)
    &&& grants_scope(d, DelegationScope::CrossNamespaceQuery)
    &&& forall|k: int| 0 <= k < ns_ids.len() ==> covers(d, #[trigger] ns_ids[k])
}

/// The IDs of a list of namespaces.
pub open spec fn namespace_ids(nss: Seq<&Namespace>) -> Seq<Seq<char>> {
    nss.map_values(|n: &Namespace| n.id@)
}

/// `d` with `revoked` set when its ID is `id`.
pub open spec fn revoked_if(d: DelegationCredential, id: Seq<char>) -> DelegationCredential {
    if d.delegation_id@ == id {
        DelegationCredential { revoked: true, ..d }
    } else {
        d
    }
}

/// The access gate: the consents and delegations it has accepted.
#[derive(Debug)]
pub struct AccessGate {
    /// Accepted consent proofs.
    pub consents: Vec<ConsentProof>,
    /// Accepted delegation credentials.
    pub delegations: Vec<DelegationCredential>,
}

impl AccessGate {
    /// A gate with no consents or delegations.
    pub fn new() -> (r: AccessGate)
        ensures
            r.consents@.len() == 0,
            r.delegations@.len() == 0,
    {
        AccessGate { consents: Vec::new(), delegations: Vec::new() }
    }

    /// Accepts a consent proof if its signature verifies.
    pub fn add_consent(&mut self, consent: ConsentProof) -> (r: Result<(), AuthError>)
        ensures
            r is Ok <==> ed25519_accepts(consent.consenter@, consent.signed_bytes(), consent.sig@),
            forall|seed: Seq<u8>| seed.len() == 32 && consent.consenter@ == ed25519_public_key(seed)
                && consent.sig@ == ed25519_signature(seed, consent.signed_bytes()) ==> r is Ok,
            r matches Err(e) ==> (e matches AuthError::Crypto(c) && c is InvalidSignature),
            r is Ok ==> final(self).consents@ == old(self).consents@.push(consent),
            r is Err ==> final(self).consents@ == old(self).consents@,
            final(self).delegations@ == old(self).delegations@,
    {
        match consent.verify() {
            Ok(()) => {
                self.consents.push(consent);
                Ok(())
            },
            Err(e) => Err(e),
        }
    }

    /// Accepts a delegation credential if its signature verifies.
    pub fn add_delegation(&mut self, delegation: DelegationCredential) -> (r: Result<(), AuthError>)
        ensures
            r is Ok <==> ed25519_accepts(delegation.delegator@, delegation.signed_bytes(), delegation.sig@),
            forall|seed: Seq<u8>| seed.len() == 32 && delegation.delegator@ == ed25519_public_key(seed)
                && delegation.sig@ == ed25519_signature(seed, delegation.signed_bytes()) ==> r is Ok,
            r matches Err(e) ==> (e matches AuthError::Crypto(c) && c is InvalidSignature),
            r is Ok ==> final(self).delegations@ == old(self).delegations@.push(delegation),
            r is Err ==> final(self).delegations@ == old(self).delegations@,
            final(self).consents@ == old(self).consents@,
    {
        match delegation.verify_signature() {
            Ok(()) => {
                self.delegations.push(delegation);
                Ok(())
            },
            Err(e) => Err(e),
        }
    }

    /// Whether `requester` may act on `namespace` (see [`permitted`]).
    fn permits(
        &self,
        requester: &VerifyingKey,
        namespace: &Namespace,
        now_ms: u64,
        action: ConsentAction,
        scope: DelegationScope,
    ) -> (r: bool)
        ensures
            r == permitted(self.consents@, self.delegations@, requester@, namespace.owner@, namespace.id@,
                now_ms, action, scope),
    {
        if namespace.is_owner(requester) {
            return true;
        }
        let requester_b64 = requester.to_base64();
        let mut i: usize = 0;
        while i < self.consents.len()
            invariant
                i <= self.consents@.len(),
                requester_b64@ == base64_text(requester@),
                forall|j: int| 0 <= j < i ==> !consent_grants(#[trigger] self.consents@[j], action, requester@,
                    namespace.id@, now_ms),
            decreases self.consents@.len() - i,
        {
            let c = &self.consents[i];
            if c.action == action && str_equal(c.target.as_str(), requester_b64.as_str()) && c.is_valid(now_ms) {
                match &c.namespace {
                    Some(ns) => {
                        if str_equal(ns.as_str(), namespace.id.as_str()) {
                            return true;
                        }
                    },
                    None => {
                        return true;
                    },
                }
            }
            i += 1;
        }
        let mut i: usize = 0;
        while i < self.delegations.len()
            invariant
                i <= self.delegations@.len(),
                forall|j: int| 0 <= j < i ==> !delegation_grants(#[trigger] self.delegations@[j], scope, requester@,
                    namespace.id@, now_ms),
            decreases self.delegations@.len() - i,
        {
            let d = &self.delegations[i];
            if d.delegate.same_as(requester) && d.is_valid(now_ms) && d.has_scope(&scope)
                && d.covers_namespace(namespace.id.as_str()) {
                return true;
            }
            i += 1;
        }
        false
    }

    /// Whether `requester` may read `namespace`: as owner, through a
    /// cross-namespace-read consent, or through a read delegation.
    pub fn check_read(&self, requester: &VerifyingKey, namespace: &Namespace, now_ms: u64) -> (r: AccessDecision)
        ensures
            r is Allowed <==> permitted(self.consents@, self.delegations@, requester@, namespace.owner@,
                namespace.id@, now_ms, ConsentAction::CrossNamespaceRead, DelegationScope::ReadNamespace),
            r matches AccessDecision::Denied(m) ==> m@ == "no valid consent or delegation for reading namespace '"@
                + namespace.id@ + "'"@,
    {
        if self.permits(requester, namespace, now_ms, ConsentAction::CrossNamespaceRead, DelegationScope::ReadNamespace) {
            AccessDecision::Allowed
        } else {
            AccessDecision::Denied(concat3(
                "no valid consent or delegation for reading namespace '",
                namespace.id.as_str(),
                "'",
            ))
        }
    }

    /// Whether `requester` may write to `namespace`: as owner, through a
    /// write-access consent, or through a write delegation.
    pub fn check_write(&self, requester: &VerifyingKey, namespace: &Namespace, now_ms: u64) -> (r: AccessDecision)
        ensures
            r is Allowed <==> permitted(self.consents@, self.delegations@, requester@, namespace.owner@,
                namespace.id@, now_ms, ConsentAction::GrantWriteAccess, DelegationScope::WriteNamespace),
            r matches AccessDecision::Denied(m) ==> m@ == "no valid consent or delegation for writing to namespace '"@
                + namespace.id@ + "'"@,
    {
        if self.permits(requester, namespace, now_ms, ConsentAction::GrantWriteAccess, DelegationScope::WriteNamespace) {
            AccessDecision::Allowed
        } else {
            AccessDecision::Denied(concat3(
                "no valid consent or delegation for writing to namespace '",
                namespace.id.as_str(),
                "'",
            ))
        }
    }

    /// Whether `agent` may query all of `namespaces` together: it needs one
    /// valid delegation with the cross-namespace-query scope covering
    /// every one of them.
    pub fn check_cross_namespace_query(&self, agent: &VerifyingKey, namespaces: &[&Namespace], now_ms: u64) -> (r: AccessDecision)
        ensures
            r is Allowed <==> exists|i: int| 0 <= i < self.delegations@.len()
                && query_grant(#[trigger] self.delegations@[i], agent@, namespace_ids(namespaces@), now_ms),
            r matches AccessDecision::Denied(m) ==> m@ == "no valid delegation for cross-namespace query"@,
    {
        let ghost ids = namespace_ids(namespaces@);
        let mut i: usize = 0;
        while i < self.delegations.len()
            invariant
                i <= self.delegations@.len(),
                ids == namespace_ids(namespaces@),
                forall|j: int| 0 <= j < i ==> !query_grant(#[trigger] self.delegations@[j], agent@, ids, now_ms),
            decreases self.delegations@.len() - i,
        {
            let d = &self.delegations[i];
            if d.delegate.same_as(agent) && d.is_valid(now_ms) && d.has_scope(&DelegationScope::CrossNamespaceQuery) {
                let mut k: usize = 0;
                let mut all_covered = true;
                while k < namespaces.len()
                    invariant_except_break
                        k <= namespaces@.len(),
                        all_covered,
                        forall|m: int| 0 <= m < k ==> covers(*d, #[trigger] ids[m]),
                    invariant
                        ids == namespace_ids(namespaces@),
                    ensures
                        all_covered <==> forall|m: int| 0 <= m < ids.len() ==> covers(*d, #[trigger] ids[m]),
                    decreases namespaces@.len() - k,
                {
                    if !d.covers_namespace(namespaces[k].id.as_str()) {
                        assert(ids[k as int] == namespaces@[k as int].id@);
                        assert(!covers(*d, ids[k as int]));
                        all_covered = false;
                        break;
                    }
                    k += 1;
                }
                if all_covered {
                    return AccessDecision::Allowed;
                }
            }
            i += 1;
        }
        AccessDecision::Denied(String::from_str("no valid delegation for cross-namespace query"))
    }

    /// Revokes every delegation with ID `delegation_id`.
    pub fn revoke_delegation(&mut self, delegation_id: &str)
        ensures
            final(self).delegations@ == old(self).delegations@.map_values(
                |d: DelegationCredential| revoked_if(d, delegation_id@),
            ),
            final(self).consents@ == old(self).consents@,
    {
        let mut rest: Vec<DelegationCredential> = Vec::new();
        std::mem::swap(&mut rest, &mut self.delegations);
        let ghost orig = rest@;
        let ghost target = orig.map_values(|d: DelegationCredential| revoked_if(d, delegation_id@));
        let mut done: Vec<DelegationCredential> = Vec::new();
        while rest.len() > 0
            invariant
                target == orig.map_values(|d: DelegationCredential| revoked_if(d, delegation_id@)),
                done@.len() + rest@.len() == orig.len(),
                done@ == target.take(done@.len() as int),
                rest@ == orig.skip(done@.len() as int),
            decreases rest@.len(),
        {
            let ghost k = done@.len() as int;
            let mut d = rest.remove(0);
            assert(d == orig[k]);
            if str_equal(d.delegation_id.as_str(), delegation_id) {
                d.revoke();
            }
            done.push(d);
            assert(done@ =~= target.take(k + 1));
            assert(rest@ =~= orig.skip(k + 1));
        }
        assert(done@ =~= target);
        self.delegations = done;
    }

    /// Drops the consents and delegations that are no longer valid at `now_ms`.
    pub fn cleanup_expired(&mut self, now_ms: u64)
        ensures
            final(self).consents@ == old(self).consents@.filter(|c: ConsentProof| c.valid_at(now_ms)),
            final(self).delegations@ == old(self).delegations@.filter(
                |d: DelegationCredential| delegation_valid(d, now_ms),
            ),
    {
        let mut rest: Vec<ConsentProof> = Vec::new();
        std::mem::swap(&mut rest, &mut self.consents);
        let ghost orig = rest@;
        let ghost keep = |c: ConsentProof| c.valid_at(now_ms);
        let mut kept: Vec<ConsentProof> = Vec::new();
        let ghost mut n: int = 0;
        proof {
            reveal(Seq::filter);
            assert(orig.take(0).filter(keep) =~= Seq::<ConsentProof>::empty());
        }
        while rest.len() > 0
            invariant
                keep == (|c: ConsentProof| c.valid_at(now_ms)),
                0 <= n <= orig.len(),
                rest@ == orig.skip(n),
                kept@ == orig.take(n).filter(keep),
            decreases rest@.len(),
        {
            let c = rest.remove(0);
            assert(c == orig[n]);
            proof {
                assert(orig.take(n + 1) =~= orig.take(n).push(orig[n]));
                orig.take(n).lemma_filter_push(orig[n], keep);
            }
            if c.is_valid(now_ms) {
                kept.push(c);
            }
            proof {
                n = n + 1;
                assert(rest@ =~= orig.skip(n));
            }
        }
        assert(orig.take(n) =~= orig);
        self.consents = kept;

        let mut rest: Vec<DelegationCredential> = Vec::new();
        std::mem::swap(&mut rest, &mut self.delegations);
        let ghost orig = rest@;
        let ghost keep = |d: DelegationCredential| delegation_valid(d, now_ms);
        let mut kept: Vec<DelegationCredential> = Vec::new();
        let ghost mut n: int = 0;
        proof {
            reveal(Seq::filter);
            assert(orig.take(0).filter(keep) =~= Seq::<DelegationCredential>::empty());
        }
        while rest.len() > 0
            invariant
                keep == (|d: DelegationCredential| delegation_valid(d, now_ms)),
                0 <= n <= orig.len(),
                rest@ == orig.skip(n),
                kept@ == orig.take(n).filter(keep),
            decreases rest@.len(),
        {
            let d = rest.remove(0);
            assert(d == orig[n]);
            proof {
                assert(orig.take(n + 1) =~= orig.take(n).push(orig[n]));
                orig.take(n).lemma_filter_push(orig[n], keep);
            }
            if d.is_valid(now_ms) {
                kept.push(d);
            }
            proof {
                n = n + 1;
                assert(rest@ =~= orig.skip(n));
            }
        }
        assert(orig.take(n) =~= orig);
        self.delegations = kept;
    }
}

/// The owner of a namespace may always read and write it, for every set
/// of consents and delegations and at every time.
pub proof fn owner_always_permitted(
    consents: Seq<ConsentProof>,
    delegations: Seq<DelegationCredential>,
    owner: Seq<u8>,
    ns_id: Seq<char>,
    now_ms: u64,
    action: ConsentAction,
    scope: DelegationScope,
)
    ensures
        permitted(consents, delegations, owner, owner, ns_id, now_ms, action, scope),
{
}

/// Dropping what is no longer valid at `now_ms` changes no access
/// decision taken at `now_ms`.
pub proof fn cleanup_keeps_decisions(
    consents: Seq<ConsentProof>,
    delegations: Seq<DelegationCredential>,
    requester: Seq<u8>,
    owner: Seq<u8>,
    ns_id: Seq<char>,
    now_ms: u64,
    action: ConsentAction,
    scope: DelegationScope,
)
    ensures
        permitted(
            consents.filter(|c: ConsentProof| c.valid_at(now_ms)),
            delegations.filter(|d: DelegationCredential| delegation_valid(d, now_ms)),
            requester, owner, ns_id, now_ms, action, scope,
        ) == permitted(consents, delegations, requester, owner, ns_id, now_ms, action, scope),
{
    let kc = |c: ConsentProof| c.valid_at(now_ms);
    let kd = |d: DelegationCredential| delegation_valid(d, now_ms);
    let fc = consents.filter(kc);
    let fd = delegations.filter(kd);
    if exists|i: int| 0 <= i < consents.len() && consent_grants(#[trigger] consents[i], action, requester, ns_id, now_ms) {
        let i = choose|i: int| 0 <= i < consents.len() && consent_grants(#[trigger] consents[i], action, requester, ns_id, now_ms);
        consents.lemma_filter_contains(kc, i);
        let j = choose|j: int| 0 <= j < fc.len() && fc[j] == consents[i];
        assert(consent_grants(fc[j], action, requester, ns_id, now_ms));
    }
    if exists|i: int| 0 <= i < fc.len() && consent_grants(#[trigger] fc[i], action, requester, ns_id, now_ms) {
        let i = choose|i: int| 0 <= i < fc.len() && consent_grants(#[trigger] fc[i], action, requester, ns_id, now_ms);
        assert(fc.contains(fc[i]));
        consents.lemma_filter_contains_rev(kc, fc[i]);
        let j = choose|j: int| 0 <= j < consents.len() && consents[j] == fc[i];
        assert(consent_grants(consents[j], action, requester, ns_id, now_ms));
    }
    if exists|i: int| 0 <= i < delegations.len() && delegation_grants(#[trigger] delegations[i], scope, requester, ns_id, now_ms) {
        let i = choose|i: int| 0 <= i < delegations.len() && delegation_grants(#[trigger] delegations[i], scope, requester, ns_id, now_ms);
        delegations.lemma_filter_contains(kd, i);
        let j = choose|j: int| 0 <= j < fd.len() && fd[j] == delegations[i];
        assert(delegation_grants(fd[j], scope, requester, ns_id, now_ms));
    }
    if exists|i: int| 0 <= i < fd.len() && delegation_grants(#[trigger] fd[i], scope, requester, ns_id, now_ms) {
        let i = choose|i: int| 0 <= i < fd.len() && delegation_grants(#[trigger] fd[i], scope, requester, ns_id, now_ms);
        assert(fd.contains(fd[i]));
        delegations.lemma_filter_contains_rev(kd, fd[i]);
        let j = choose|j: int| 0 <= j < delegations.len() && delegations[j] == fd[i];
        assert(delegation_grants(delegations[j], scope, requester, ns_id, now_ms));
    }
}

/// A revoked delegation grants nothing: no access and no cross-namespace query.
pub proof fn revoked_grants_nothing(
    d: DelegationCredential,
    scope: DelegationScope,
    requester: Seq<u8>,
    ns_id: Seq<char>,
    ns_ids: Seq<Seq<char>>,
    now_ms: u64,
)
    ensures
        !delegation_grants(revoked_if(d, d.delegation_id@), scope, requester, ns_id, now_ms),
        !query_grant(revoked_if(d, d.delegation_id@), requester, ns_ids, now_ms),
{
}

/// A consent with no namespace applies to every namespace: when the
/// consents include one for `action`, aimed at `requester` and not expired at
/// `now_ms`, that names no namespace, `requester` is permitted `action` on
/// any namespace, whoever owns it, for every action and delegation scope.
pub proof fn unscoped_consent_grants_everywhere(
    consents: Seq<ConsentProof>,
    delegations: Seq<DelegationCredential>,
    i: int,
    requester: Seq<u8>,
    owner: Seq<u8>,
    ns_id: Seq<char>,
    now_ms: u64,
    action: ConsentAction,
    scope: DelegationScope,
)
    requires
        0 <= i < consents.len(),
        consents[i].action == action,
        consents[i].target@ == base64_text(requester),
        match consents[i].expires_at_ms {
            Some(e) => now_ms <= e,
            None => true,
        },
        consents[i].namespace is None,
    ensures
        permitted(consents, delegations, requester, owner, ns_id, now_ms, action, scope),
{
    assert(consent_grants(consents[i], action, requester, ns_id, now_ms));
}

/// A consent that names a namespace applies there: when the consents
/// include one for `action`, aimed at `requester`, not expired at `now_ms` and
/// naming namespace `ns_id`, `requester` is permitted `action` on `ns_id`.
pub proof fn scoped_consent_grants_its_namespace(
    consents: Seq<ConsentProof>,
    delegations: Seq<DelegationCredential>,
    i: int,
    requester: Seq<u8>,
    owner: Seq<u8>,
    ns_id: Seq<char>,
    now_ms: u64,
    action: ConsentAction,
    scope: DelegationScope,
)
    requires
        0 <= i < consents.len(),
        consents[i].action == action,
        consents[i].target@ == base64_text(requester),
        match consents[i].expires_at_ms {
            Some(e) => now_ms <= e,
            None => true,
        },
        consents[i].namespace matches Some(n) && n@ == ns_id,
    ensures
        permitted(consents, delegations, requester, owner, ns_id, now_ms, action, scope),
{
    assert(consent_grants(consents[i], action, requester, ns_id, now_ms));
}

/// A consent grants nothing else: not another action, not to another key
/// (keys with other base64 text), not once expired, and not on a
/// namespace other than the one it names.
pub proof fn consent_grants_only_its_terms(
    c: ConsentProof,
    action: ConsentAction,
    requester: Seq<u8>,
    ns_id: Seq<char>,
    now_ms: u64,
)
    ensures
        c.action != action ==> !consent_grants(c, action, requester, ns_id, now_ms),
        c.target@ != base64_text(requester) ==> !consent_grants(c, action, requester, ns_id, now_ms),
        (c.expires_at_ms matches Some(e) && now_ms > e) ==> !consent_grants(c, action, requester, ns_id, now_ms),
        (c.namespace matches Some(n) && n@ != ns_id) ==> !consent_grants(c, action, requester, ns_id, now_ms),
{
}

/// A delegation lets its delegate act where it applies: when the
/// delegations include one to `requester` that is not revoked, not expired at
/// `now_ms`, under its query limit (or unlimited), that grants `scope` (or
/// every scope) and lists `ns_id` (or no namespace at all), `requester` is
/// permitted on `ns_id`, whatever the consent action.
pub proof fn delegation_grants_where_it_applies(
    consents: Seq<ConsentProof>,
    delegations: Seq<DelegationCredential>,
    i: int,
    requester: Seq<u8>,
    owner: Seq<u8>,
    ns_id: Seq<char>,
    now_ms: u64,
    action: ConsentAction,
    scope: DelegationScope,
)
    requires
        0 <= i < delegations.len(),
        delegations[i].delegate@ == requester,
        !delegations[i].revoked,
        now_ms <= delegations[i].expires_at_ms,
        delegations[i].max_queries == 0 || delegations[i].queries_used < delegations[i].max_queries,
        delegations[i].scopes@.contains(scope) || delegations[i].scopes@.contains(DelegationScope::Full),
        delegations[i].namespaces@.len() == 0 || exists|k: int| 0 <= k < delegations[i].namespaces@.len()
            && #[trigger] delegations[i].namespaces@[k]@ == ns_id,
    ensures
        permitted(consents, delegations, requester, owner, ns_id, now_ms, action, scope),
{
    let d = delegations[i];
    if d.namespaces@.len() != 0 {
        let k = choose|k: int| 0 <= k < d.namespaces@.len() && #[trigger] d.namespaces@[k]@ == ns_id;
        assert(str_views(d.namespaces@)[k] == ns_id);
    }
    assert(delegation_grants(d, scope, requester, ns_id, now_ms));
}

/// A delegation grants nothing outside its terms: not to another key, not
/// once revoked or expired, not past its query limit, not without the
/// scope (or every scope), and not on a namespace it does not list when
/// it lists some.
pub proof fn delegation_grants_only_its_terms(
    d: DelegationCredential,
    scope: DelegationScope,
    requester: Seq<u8>,
    ns_id: Seq<char>,
    now_ms: u64,
)
    ensures
        d.delegate@ != requester ==> !delegation_grants(d, scope, requester, ns_id, now_ms),
        d.revoked ==> !delegation_grants(d, scope, requester, ns_id, now_ms),
        now_ms > d.expires_at_ms ==> !delegation_grants(d, scope, requester, ns_id, now_ms),
        (d.max_queries > 0 && d.queries_used >= d.max_queries) ==> !delegation_grants(d, scope, requester, ns_id, now_ms),
        (!d.scopes@.contains(scope) && !d.scopes@.contains(DelegationScope::Full)) ==> !delegation_grants(d, scope,
            requester, ns_id, now_ms),
        (d.namespaces@.len() > 0 && forall|k: int| 0 <= k < d.namespaces@.len() ==> (#[trigger] d.namespaces@[k])@ != ns_id)
            ==> !delegation_grants(d, scope, requester, ns_id, now_ms),
{
    if d.namespaces@.len() > 0 && forall|k: int| 0 <= k < d.namespaces@.len() ==> (#[trigger] d.namespaces@[k])@ != ns_id {
        if str_views(d.namespaces@).contains(ns_id) {
            let k = choose|k: int| 0 <= k < str_views(d.namespaces@).len() && str_views(d.namespaces@)[k] == ns_id;
            assert(d.namespaces@[k]@ == ns_id);
        }
    }
}

/// A cross-namespace query is granted by one delegation to the agent that
/// is not revoked, not expired, under its query limit (or unlimited),
/// grants cross-namespace queries (or every scope), and lists every
/// namespace asked for (or no namespace at all); one that lacks the scope
/// grants none.
pub proof fn cross_namespace_grant_law(d: DelegationCredential, agent: Seq<u8>, ns_ids: Seq<Seq<char>>, now_ms: u64)
    ensures
        (d.delegate@ == agent && !d.revoked && now_ms <= d.expires_at_ms && (d.max_queries == 0 || d.queries_used
            < d.max_queries) && (d.scopes@.contains(DelegationScope::CrossNamespaceQuery) || d.scopes@.contains(
            DelegationScope::Full)) && (d.namespaces@.len() == 0 || forall|k: int| 0 <= k < ns_ids.len()
            ==> str_views(d.namespaces@).contains(#[trigger] ns_ids[k]))) ==> query_grant(d, agent, ns_ids, now_ms),
        (!d.scopes@.contains(DelegationScope::CrossNamespaceQuery) && !d.scopes@.contains(DelegationScope::Full))
            ==> !query_grant(d, agent, ns_ids, now_ms),
        d.delegate@ != agent ==> !query_grant(d, agent, ns_ids, now_ms),
        d.revoked ==> !query_grant(d, agent, ns_ids, now_ms),
        now_ms > d.expires_at_ms ==> !query_grant(d, agent, ns_ids, now_ms),
{
}

/// Only the owner, a consent or a delegation permits: a requester that is
/// not the owner and holds no granting consent or delegation is refused.
pub proof fn nothing_else_permits(
    consents: Seq<ConsentProof>,
    delegations: Seq<DelegationCredential>,
    requester: Seq<u8>,
    owner: Seq<u8>,
    ns_id: Seq<char>,
    now_ms: u64,
    action: ConsentAction,
    scope: DelegationScope,
)
    requires
        owner != requester,
        forall|i: int| 0 <= i < consents.len() ==> !consent_grants(#[trigger] consents[i], action, requester, ns_id, now_ms),
        forall|i: int| 0 <= i < delegations.len() ==> !delegation_grants(#[trigger] delegations[i], scope, requester, ns_id,
            now_ms),
    ensures
        !permitted(consents, delegations, requester, owner, ns_id, now_ms, action, scope),
{
}

impl Default for AccessGate {
    fn default() -> (r: Self)
        ensures
            r.consents@.len() == 0,
            r.delegations@.len() == 0,
    {
        AccessGate::new()
    }
}

} // verus!
