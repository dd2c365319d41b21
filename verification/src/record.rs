//! Records: immutable, content-addressed, signed units of data.
//!
//! A record's ID is the BLAKE3 hash of the canonical encoding of its
//! signable fields, and its signature is the creator's Ed25519 signature
//! over the same bytes.

use vstd::prelude::*;
use vstd::string::*;
use crate::canonical::{canonical_bytes, canonicalize};
use crate::crypto::identity::{Signature, SigningKey, VerifyingKey};
use crate::crypto::primitives::{base64_text, blake3_digest, ed25519_accepts, ed25519_public_key,
    ed25519_signature, hex_text};
use crate::crypto::hash::content_hash;
use crate::error::CoreError;
use crate::json::{JsonNumber, JsonValue, JsonView, entry_views, insert_all};
use crate::clock::current_time_ms;

verus! {

/// Record identifier: the lowercase hex BLAKE3 hash of the signable fields.
pub type RecordId = String;

/// An immutable, signed record.
#[derive(Debug)]
pub struct Record {
    /// Content address.
    pub record_id: RecordId,
    /// Schema ID of the data.
    pub schema: String,
    /// Namespace the record belongs to.
    pub namespace: String,
    /// The creator's verifying key.
    pub created_by: VerifyingKey,
    /// Creation time (ms since epoch).
    pub created_at_ms: u64,
    /// The record's data.
    pub data: JsonValue,
    /// ID of the record this one supersedes, if any.
    pub previous_version: Option<String>,
    /// The creator's signature over the signable fields.
    pub sig: Signature,
}

/// The view of an optional string.
pub open spec fn opt_str_view(o: Option<String>) -> Option<Seq<char>> {
    match o {
        Some(s) => Some(s@),
        None => None,
    }
}

/// The signable fields of a record as a JSON object: `schema`, `namespace`,
/// `created_by` (base64 key), `created_at_ms`, `data`, and
/// `previous_version` when present.
pub open spec fn signable_view(
    schema: Seq<char>,
    namespace: Seq<char>,
    created_by: Seq<u8>,
    created_at_ms: u64,
    data: JsonView,
    previous_version: Option<Seq<char>>,
) -> JsonView {
    let base = seq![
        ("schema"@, JsonView::Str(schema)),
        ("namespace"@, JsonView::Str(namespace)),
        ("created_by"@, JsonView::Str(base64_text(created_by))),
        ("created_at_ms"@, JsonView::Number(JsonNumber::PosInt(created_at_ms))),
        ("data"@, data),
    ];
    let pairs = match previous_version {
        Some(p) => base.push(("previous_version"@, JsonView::Str(p))),
        None => base,
    };
    JsonView::Object(insert_all(Seq::empty(), pairs))
}

/// The bytes a record's ID and signature are computed over.
pub open spec fn signing_bytes(
    schema: Seq<char>,
    namespace: Seq<char>,
    created_by: Seq<u8>,
    created_at_ms: u64,
    data: JsonView,
    previous_version: Option<Seq<char>>,
) -> Seq<u8> {
    canonical_bytes(signable_view(schema, namespace, created_by, created_at_ms, data, previous_version))
}

impl Record {
    /// The bytes this record's ID and signature are computed over.
    pub open spec fn spec_signing_bytes(self) -> Seq<u8> {
        signing_bytes(
            self.schema@,
            self.namespace@,
            self.created_by@,
            self.created_at_ms,
            self.data@,
            opt_str_view(self.previous_version),
        )
    }

    /// The canonical signable bytes of this record.
    pub fn signable_bytes(&self) -> (r: Vec<u8>)
        ensures
            r@ == self.spec_signing_bytes(),
    {
        signable_bytes_of(
            &self.schema,
            &self.namespace,
            &self.created_by,
            self.created_at_ms,
            &self.data,
            &self.previous_version,
        )
    }

    /// Creates and signs a record with an explicit creation time.
    pub fn new_with_timestamp(
        signing_key: &SigningKey,
        schema: String,
        namespace: String,
        data: JsonValue,
        previous_version: Option<String>,
        created_at_ms: u64,
    ) -> (r: Result<Record, CoreError>)
        ensures
            r matches Ok(rec) && {
                &&& rec.schema@ == schema@
                &&& rec.namespace@ == namespace@
                &&& rec.created_by@ == ed25519_public_key(signing_key@)
                &&& rec.created_at_ms == created_at_ms
                &&& rec.data@ == data@
                &&& opt_str_view(rec.previous_version) == opt_str_view(previous_version)
                &&& rec.record_id@ == hex_text(blake3_digest(rec.spec_signing_bytes()))
                &&& rec.sig@ == ed25519_signature(signing_key@, rec.spec_signing_bytes())
            },
    {
        let created_by = signing_key.verifying_key();
        let bytes = signable_bytes_of(&schema, &namespace, &created_by, created_at_ms, &data, &previous_version);
        let record_id = content_hash(bytes.as_slice());
        let sig = signing_key.sign(bytes.as_slice());
        Ok(Record { record_id, schema, namespace, created_by, created_at_ms, data, previous_version, sig })
    }

    /// Creates and signs a record stamped with the current time.
    pub fn new(
        signing_key: &SigningKey,
        schema: String,
        namespace: String,
        data: JsonValue,
        previous_version: Option<String>,
    ) -> (r: Result<Record, CoreError>)
        ensures
            r matches Ok(rec) && {
                &&& rec.schema@ == schema@
                &&& rec.namespace@ == namespace@
                &&& rec.created_by@ == ed25519_public_key(signing_key@)
                &&& rec.data@ == data@
                &&& opt_str_view(rec.previous_version) == opt_str_view(previous_version)
                &&& rec.record_id@ == hex_text(blake3_digest(rec.spec_signing_bytes()))
                &&& rec.sig@ == ed25519_signature(signing_key@, rec.spec_signing_bytes())
            },
    {
        let now = current_time_ms();
        Record::new_with_timestamp(signing_key, schema, namespace, data, previous_version, now)
    }

    /// Verifies the creator's signature over the signable fields.
    pub fn verify(&self) -> (r: Result<(), CoreError>)
        ensures
            r is Ok <==> ed25519_accepts(self.created_by@, self.spec_signing_bytes(), self.sig@),
            r matches Err(e) ==> e is InvalidSignature,
            forall|seed: Seq<u8>| seed.len() == 32 && self.created_by@ == ed25519_public_key(seed)
                && self.sig@ == ed25519_signature(seed, self.spec_signing_bytes()) ==> r is Ok,
    {
        let bytes = self.signable_bytes();
        match self.created_by.verify(bytes.as_slice(), &self.sig) {
            Ok(()) => Ok(()),
            Err(_) => Err(CoreError::InvalidSignature(String::from_str("record signature does not verify"))),
        }
    }
}

impl Clone for Record {
    fn clone(&self) -> (r: Self)
        ensures
            r.record_id@ == self.record_id@,
            r.schema@ == self.schema@,
            r.namespace@ == self.namespace@,
            r.created_by@ == self.created_by@,
            r.created_at_ms == self.created_at_ms,
            r.data@ == self.data@,
            opt_str_view(r.previous_version) == opt_str_view(self.previous_version),
            r.sig@ == self.sig@,
    {
        Record {
            record_id: self.record_id.clone(),
            schema: self.schema.clone(),
            namespace: self.namespace.clone(),
            created_by: self.created_by.clone(),
            created_at_ms: self.created_at_ms,
            data: self.data.deep_copy(),
            previous_version: match &self.previous_version {
                Some(p) => Some(p.clone()),
                None => None,
            },
            sig: self.sig.clone(),
        }
    }
}

/// The canonical bytes of the signable fields.
fn signable_bytes_of(
    schema: &String,
    namespace: &String,
    created_by: &VerifyingKey,
    created_at_ms: u64,
    data: &JsonValue,
    previous_version: &Option<String>,
) -> (r: Vec<u8>)
    ensures
        r@ == signing_bytes(schema@, namespace@, created_by@, created_at_ms, data@, opt_str_view(*previous_version)),
{
    let mut pairs: Vec<(String, JsonValue)> = Vec::new();
    pairs.push((String::from_str("schema"), JsonValue::String(schema.clone())));
    pairs.push((String::from_str("namespace"), JsonValue::String(namespace.clone())));
    pairs.push((String::from_str("created_by"), JsonValue::String(created_by.to_base64())));
    pairs.push((String::from_str("created_at_ms"), JsonValue::Number(JsonNumber::PosInt(created_at_ms))));
    pairs.push((String::from_str("data"), data.deep_copy()));
    match previous_version {
        Some(p) => {
            pairs.push((String::from_str("previous_version"), JsonValue::String(p.clone())));
        },
        None => {},
    }
    let ghost pv = entry_views(pairs@);
    proof {
        crate::json::lemma_entry_views(pairs@);
        let base = seq![
            ("schema"@, JsonView::Str(schema@)),
            ("namespace"@, JsonView::Str(namespace@)),
            ("created_by"@, JsonView::Str(base64_text(created_by@))),
            ("created_at_ms"@, JsonView::Number(JsonNumber::PosInt(created_at_ms))),
            ("data"@, data@),
        ];
        match previous_version {
            Some(p) => {
                assert(pv =~= base.push(("previous_version"@, JsonView::Str(p@))));
            },
            None => {
                assert(pv =~= base);
            },
        }
    }
    let obj = JsonValue::object(pairs);
    match canonicalize(&obj) {
        Ok(b) => b,
        Err(_) => Vec::new(),
    }
}

} // verus!
