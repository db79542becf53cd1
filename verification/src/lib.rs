//! An in-memory key/value cache with a bounded byte capacity, per-entry
//! time-to-live expiry, and least-recently-inserted eviction.
//!
//! The engine keeps three structures mutually consistent under every
//! mutation: the primary table, a recency index ordered by insertion
//! instant, and an expiry index ordered by expiry instant. The abstract
//! state and its invariants live in [`model`], the executable engine in
//! [`engine`], and the proved laws about whole operations in [`laws`].
mod clock;
pub mod engine;
pub mod laws;
pub mod model;

pub use engine::Memcached;
