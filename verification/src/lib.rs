//! Checkpoint coordination and keyed time-indexed worker state for a stream
//! processing engine.
//!
//! The controller side collects per-subtask checkpoint acknowledgements for
//! an epoch ([`checkpoint_state`], [`operator`]), merges their per-table
//! metadata, aggregates watermarks ([`watermark`]) and produces the durable
//! manifests.  The worker side keeps a key/time multi-map over
//! `(key, timestamp)` pairs with watermark-driven expiration ([`cache`]),
//! write-through log records ([`multimap`]) and deterministic restoration
//! from the backing log ([`restore`]).  Wall-clock instants are u64
//! microseconds since the UNIX epoch throughout.

pub mod assoc;
pub mod cache;
pub mod checkpoint_state;
pub mod laws;
pub mod multimap;
pub mod operator;
pub mod restore;
pub mod types;
pub mod watermark;
