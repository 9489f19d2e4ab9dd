//! Core of a versioned vector index: lazily loaded graph nodes, their
//! exponentially spaced version chains, the cache that owns them, and the
//! fixed-width record format they are stored in.

/// Locators, version ids, metric results and errors.
pub mod types;
/// The two-state lazy item and the power-of-four slot arithmetic.
pub mod lazy_item;
/// Graph nodes and their neighbor slots.
pub mod node;
/// The registry of items, pending resolution and version chains.
pub mod cache;
/// Byte layout of stored node records.
pub mod codec;
/// Visited-pair bookkeeping for deep comparisons.
pub mod equality;
/// Decisions taken while decoding create-vector requests.
pub mod dto;
