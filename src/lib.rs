//! Store-and-forward message layer: a bounded message store with eviction,
//! expiry and retrieval, the retrieval protocol's bookkeeping, and the
//! classification stage of the inbound message pipeline.

pub mod message;
pub mod store;
pub mod laws;
pub mod dedup;
pub mod retrieval;
pub mod actor;
pub mod pipeline;
