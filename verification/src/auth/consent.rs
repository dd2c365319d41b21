//! Consent proofs.
//!
//! Cross-namespace reads and sensitive operations require explicit
//! consent from the user, proven by an Ed25519 signature over the
//! canonical encoding of the consent's fields.

use vstd::prelude::*;
use vstd::string::*;
use crate::canonical::{canonical_bytes, canonicalize};
use crate::clock::current_time_ms;
use crate::crypto::hash::content_hash;
use crate::crypto::identity::{Signature, SigningKey, VerifyingKey};
use crate::crypto::primitives::{base64_text, blake3_digest, ed25519_accepts, ed25519_public_key,
    ed25519_signature, hex_text};
use crate::error::AuthError;
use crate::json::{JsonNumber, JsonValue, JsonView, entry_views, insert_all, lemma_entry_views};
use crate::record::opt_str_view;

verus! {

broadcast use vstd::std_specs::vec::group_vec_axioms, vstd::seq::group_seq_axioms;

/// Actions that require consent.
#[derive(Debug, Clone, Copy, PartialEq, Eq, Structural)]
pub enum ConsentAction {
    /// Read access to a namespace the app does not own.
    CrossNamespaceRead,
    /// Agent query access across several namespaces.
    AgentQueryAccess,
    /// Export data from a namespace.
    ExportData,
    /// Share a namespace's encryption key with another device.
    ShareNamespaceKey,
    /// Delete all records of a namespace.
    PurgeNamespace,
    /// Write access for another app within a namespace.
    GrantWriteAccess,
}

/// The snake_case name of an action, as it is signed.
pub open spec fn action_name(a: ConsentAction) -> Seq<char> {
    match a {
        ConsentAction::CrossNamespaceRead => "cross_namespace_read"@,
        ConsentAction::AgentQueryAccess => "agent_query_access"@,
        ConsentAction::ExportData => "export_data"@,
        ConsentAction::ShareNamespaceKey => "share_namespace_key"@,
        ConsentAction::PurgeNamespace => "purge_namespace"@,
        ConsentAction::GrantWriteAccess => "grant_write_access"@,
    }
}

/// The snake_case name of an action.
pub fn action_str(a: ConsentAction) -> (r: &'static str)
    ensures
        r@ == action_name(a),
{
    match a {
        ConsentAction::CrossNamespaceRead => "cross_namespace_read",
        ConsentAction::AgentQueryAccess => "agent_query_access",
        ConsentAction::ExportData => "export_data",
        ConsentAction::ShareNamespaceKey => "share_namespace_key",
        ConsentAction::PurgeNamespace => "purge_namespace",
        ConsentAction::GrantWriteAccess => "grant_write_access",
    }
}

/// A cryptographic proof of user consent.
#[derive(Debug)]
pub struct ConsentProof {
    /// The action consented to.
    pub action: ConsentAction,
    /// Human-readable description shown to the user before signing.
    pub description: String,
    /// The user or device giving consent.
    pub consenter: VerifyingKey,
    /// Target of the consent (namespace ID, agent key, app ID, ...).
    pub target: String,
    /// The namespace the consent is limited to, if any.
    pub namespace: Option<String>,
    /// When consent was given (ms since epoch).
    pub consented_at_ms: u64,
    /// Expiry (ms since epoch); `None` never expires.
    pub expires_at_ms: Option<u64>,
    /// Signature over the canonical consent fields.
    pub sig: Signature,
}

/// The signed fields of a consent as a JSON object: `action`,
/// `description`, `consenter` (base64 key), `target`, `namespace` when
/// present, `consented_at_ms`, and `expires_at_ms` when present.
pub open spec fn consent_view(
    action: ConsentAction,
    description: Seq<char>,
    consenter: Seq<u8>,
    target: Seq<char>,
    namespace: Option<Seq<char>>,
    consented_at_ms: u64,
    expires_at_ms: Option<u64>,
) -> JsonView {
    let base = seq![
        ("action"@, JsonView::Str(action_name(action))),
        ("description"@, JsonView::Str(description)),
        ("consenter"@, JsonView::Str(base64_text(consenter))),
        ("target"@, JsonView::Str(target)),
    ];
    let with_ns = match namespace {
        Some(n) => base.push(("namespace"@, JsonView::Str(n))),
        None => base,
    };
    let with_time = with_ns.push(("consented_at_ms"@, JsonView::Number(JsonNumber::PosInt(consented_at_ms))));
    let all = match expires_at_ms {
        Some(e) => with_time.push(("expires_at_ms"@, JsonView::Number(JsonNumber::PosInt(e)))),
        None => with_time,
    };
    JsonView::Object(insert_all(Seq::empty(), all))
}

impl ConsentProof {
    /// The bytes the consent signature and content hash are computed over.
    pub open spec fn signed_bytes(self) -> Seq<u8> {
        canonical_bytes(consent_view(
            self.action,
            self.description@,
            self.consenter@,
            self.target@,
            opt_str_view(self.namespace),
            self.consented_at_ms,
            self.expires_at_ms,
        ))
    }

    /// Whether the consent has not expired at `now_ms`.
    pub open spec fn valid_at(self, now_ms: u64) -> bool {
        match self.expires_at_ms {
            Some(exp) => now_ms <= exp,
            None => true,
        }
    }

    /// The canonical bytes of this consent's signed fields.
    pub fn signable_bytes(&self) -> (r: Vec<u8>)
        ensures
            r@ == self.signed_bytes(),
    {
        consent_bytes(
            self.action,
            &self.description,
            &self.consenter,
            &self.target,
            &self.namespace,
            self.consented_at_ms,
            self.expires_at_ms,
        )
    }

    /// Creates and signs a consent stamped with the current time.
    pub fn new(
        signing_key: &SigningKey,
        action: ConsentAction,
        description: String,
        target: String,
        namespace: Option<String>,
        expires_at_ms: Option<u64>,
    ) -> (r: Result<ConsentProof, AuthError>)
        ensures
            r matches Ok(c) && {
                &&& c.action == action
                &&& c.description@ == description@
                &&& c.consenter@ == ed25519_public_key(signing_key@)
                &&& c.target@ == target@
                &&& opt_str_view(c.namespace) == opt_str_view(namespace)
                &&& c.expires_at_ms == expires_at_ms
                &&& c.sig@ == ed25519_signature(signing_key@, c.signed_bytes())
            },
    {
        let now = current_time_ms();
        ConsentProof::new_with_timestamp(signing_key, action, description, target, namespace, now, expires_at_ms)
    }

    /// Creates and signs a consent with an explicit time.
    pub fn new_with_timestamp(
        signing_key: &SigningKey,
        action: ConsentAction,
        description: String,
        target: String,
        namespace: Option<String>,
        consented_at_ms: u64,
        expires_at_ms: Option<u64>,
    ) -> (r: Result<ConsentProof, AuthError>)
        ensures
            r matches Ok(c) && {
                &&& c.action == action
                &&& c.description@ == description@
                &&& c.consenter@ == ed25519_public_key(signing_key@)
                &&& c.target@ == target@
                &&& opt_str_view(c.namespace) == opt_str_view(namespace)
                &&& c.consented_at_ms == consented_at_ms
                &&& c.expires_at_ms == expires_at_ms
                &&& c.sig@ == ed25519_signature(signing_key@, c.signed_bytes())
            },
    {
        let consenter = signing_key.verifying_key();
        let bytes = consent_bytes(action, &description, &consenter, &target, &namespace, consented_at_ms, expires_at_ms);
        let sig = signing_key.sign(bytes.as_slice());
        Ok(ConsentProof { action, description, consenter, target, namespace, consented_at_ms, expires_at_ms, sig })
    }

    /// Verifies the consenter's signature over the consent fields.
    pub fn verify(&self) -> (r: Result<(), AuthError>)
        ensures
            r is Ok <==> ed25519_accepts(self.consenter@, self.signed_bytes(), self.sig@),
            r matches Err(e) ==> (e matches AuthError::Crypto(c) && c is InvalidSignature),
            forall|seed: Seq<u8>| seed.len() == 32 && self.consenter@ == ed25519_public_key(seed)
                && self.sig@ == ed25519_signature(seed, self.signed_bytes()) ==> r is Ok,
    {
        let bytes = self.signable_bytes();
        match self.consenter.verify(bytes.as_slice(), &self.sig) {
            Ok(()) => Ok(()),
            Err(e) => Err(AuthError::Crypto(e)),
        }
    }

    /// Whether the consent has not expired at `now_ms`.
    pub fn is_valid(&self, now_ms: u64) -> (r: bool)
        ensures
            r == self.valid_at(now_ms),
    {
        match self.expires_at_ms {
            Some(exp) => now_ms <= exp,
            None => true,
        }
    }

    /// The content hash of the consent's signed fields.
    pub fn content_hash(&self) -> (r: Result<String, AuthError>)
        ensures
            r matches Ok(h) && h@ == hex_text(blake3_digest(self.signed_bytes())),
    {
        let bytes = self.signable_bytes();
        Ok(content_hash(bytes.as_slice()))
    }
}

impl Clone for ConsentProof {
    fn clone(&self) -> (r: Self)
        ensures
            r.action == self.action,
            r.description == self.description,
            r.consenter@ == self.consenter@,
            r.target == self.target,
            opt_str_view(r.namespace) == opt_str_view(self.namespace),
            r.consented_at_ms == self.consented_at_ms,
            r.expires_at_ms == self.expires_at_ms,
            r.sig@ == self.sig@,
    {
        ConsentProof {
            action: self.action,
            description: self.description.clone(),
            consenter: self.consenter.clone(),
            target: self.target.clone(),
            namespace: match &self.namespace {
                Some(n) => Some(n.clone()),
                None => None,
            },
            consented_at_ms: self.consented_at_ms,
            expires_at_ms: self.expires_at_ms,
            sig: self.sig.clone(),
        }
    }
}

/// The canonical bytes of a consent's signed fields.
fn consent_bytes(
    action: ConsentAction,
    description: &String,
    consenter: &VerifyingKey,
    target: &String,
    namespace: &Option<String>,
    consented_at_ms: u64,
    expires_at_ms: Option<u64>,
) -> (r: Vec<u8>)
    ensures
        r@ == canonical_bytes(consent_view(action, description@, consenter@, target@,
            opt_str_view(*namespace), consented_at_ms, expires_at_ms)),
{
    let mut pairs: Vec<(String, JsonValue)> = Vec::new();
    pairs.push((String::from_str("action"), JsonValue::string(action_str(action))));
    pairs.push((String::from_str("description"), JsonValue::String(description.clone())));
    pairs.push((String::from_str("consenter"), JsonValue::String(consenter.to_base64())));
    pairs.push((String::from_str("target"), JsonValue::String(target.clone())));
    let ghost base = seq![
        ("action"@, JsonView::Str(action_name(action))),
        ("description"@, JsonView::Str(description@)),
        ("consenter"@, JsonView::Str(base64_text(consenter@))),
        ("target"@, JsonView::Str(target@)),
    ];
    proof {
        lemma_entry_views(pairs@);
        assert(entry_views(pairs@) =~= base);
    }
    let ghost with_ns = match namespace {
        Some(n) => base.push(("namespace"@, JsonView::Str(n@))),
        None => base,
    };
    match namespace {
        Some(n) => {
            pairs.push((String::from_str("namespace"), JsonValue::String(n.clone())));
        },
        None => {},
    }
    proof {
        lemma_entry_views(pairs@);
        assert(entry_views(pairs@) =~= with_ns);
    }
    pairs.push((String::from_str("consented_at_ms"), JsonValue::Number(JsonNumber::PosInt(consented_at_ms))));
    let ghost with_time = with_ns.push(("consented_at_ms"@, JsonView::Number(JsonNumber::PosInt(consented_at_ms))));
    match expires_at_ms {
        Some(e) => {
            pairs.push((String::from_str("expires_at_ms"), JsonValue::Number(JsonNumber::PosInt(e))));
        },
        None => {},
    }
    proof {
        lemma_entry_views(pairs@);
        match expires_at_ms {
            Some(e) => {
                assert(entry_views(pairs@) =~= with_time.push(("expires_at_ms"@, JsonView::Number(JsonNumber::PosInt(e)))));
            },
            None => {
                assert(entry_views(pairs@) =~= with_time);
            },
        }
    }
    let obj = JsonValue::object(pairs);
    match canonicalize(&obj) {
        Ok(b) => b,
        Err(_) => Vec::new(),
    }
}

} // verus!
