//! Authoritative state engine for a privacy-pool commitment set: a fixed-height
//! incremental Merkle tree of deposit commitments over the BN254 scalar field,
//! a canonical hex codec for field elements, in-memory pool indexes kept in
//! sync with chain deposit events, and an inclusion-path query service.

pub mod field;
pub mod hash;
pub mod state;
pub mod sync;
pub mod tree;
