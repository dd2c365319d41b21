//! Authorization: consent proofs, delegation credentials and the
//! namespace access gate. Apps access only their own namespaces;
//! cross-namespace reads require cryptographic consent.

pub mod consent;
pub mod delegation;
pub mod access;
