//! Deterministic control core of an append-style, single-file block storage
//! engine with online defragmentation.
//!
//! The heart of the crate is [`performer::Performer`], a pure step machine:
//! a driver repeatedly asks it for its next operation and feeds it external
//! requests and interpreter completions. The performer owns the scheduling
//! invariants (at most one in-flight I/O task, per-block FIFO ordering,
//! defragmentation accounting) and every one of them is stated and proved
//! here as a contract.

pub mod block;
pub mod performer;
pub mod pool;
pub mod lru;
pub mod defrag;
pub mod proto;
pub mod schema;
pub mod task;
