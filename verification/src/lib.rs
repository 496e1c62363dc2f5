//! An in-memory similarity-search store: fixed-dimension embedding vectors
//! keyed by string identifiers, with exact k-nearest-neighbor ranking.
//!
//! Embedding components and similarity scores are carried as the `u32` bit
//! patterns of IEEE-754 single-precision values; the surrounding application
//! encodes and decodes them and computes the similarity scores themselves,
//! while this crate holds the store, enforces the dimension invariant and
//! ranks the scored records.

pub mod errors;
pub mod ranking;
pub mod record;
pub mod store;
pub mod laws;
