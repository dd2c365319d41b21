//! Queries over records: filters, sorting, cursors, the query builder and
//! the access-controlled query engine.

pub mod filter;
pub mod sort;
pub mod cursor;
pub mod query;
pub mod engine;
