//! hellodb: a sovereign, content-addressed, branchable record store.

pub mod json;
pub mod order;
pub mod error;
pub mod canonical;
pub mod crypto;
pub mod clock;
pub mod record;
pub mod query;
pub mod strings;
pub mod schema;
pub mod keyed;
pub mod namespace;
pub mod branch;
pub mod auth;
pub mod sync;
pub mod storage;
