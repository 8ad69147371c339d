//! A fixed-capacity ring of doubly-linked nodes that only grows at its head.
//!
//! Nodes live in an arena and name their neighbours by slot index. Once the
//! ring is full its links form a cycle, and every further insertion evicts
//! the oldest element and reuses its slot for the new head. Releasing the
//! ring releases the arena, and with it every node exactly once.
pub mod laws;
pub mod ring;

pub use ring::{Node, Tweak};
