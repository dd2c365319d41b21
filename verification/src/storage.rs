//! Storage engines: the interface every backend implements, the
//! in-memory engine, and visibility over rows stored per branch.

pub mod engine;
pub mod memory;
pub mod layers;
