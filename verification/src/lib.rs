//! A caching, iterative DNS resolver core: the RFC 1035 wire codec with label
//! compression, the message model, the TTL-aware record cache, and the
//! state machine that walks the delegation hierarchy.
//!
//! The UDP plumbing around the core lives outside this crate; everything here
//! is pure computation over bytes and plain values.

pub mod buffer;
pub mod cache;
pub mod coding;
pub mod errors;
pub mod laws;
pub mod messages;
pub mod packets;
pub mod resolver;

pub use buffer::NetworkBuffer;
