//! Fine-grained change tracking over a nested value tree.
//!
//! A [`store::Store`] owns a tree of [`value::Value`]s and an arena of
//! tracked nodes. Each node is one addressable point in the tree: it keeps
//! the path to its parent (a [`mapper::Mapper`]), a weak-reference cache of
//! its materialized children, a version counter that observers poll, and a
//! runtime access state that guards against conflicting borrows.
//!
//! Reads and writes walk the node's ancestor chain and re-evaluate each
//! mapper, so a handle whose entry was removed simply reports absence.
//! A successful mutation bumps the version of every node on the chain
//! (upward invalidation) before the call returns; removing an entry clears
//! the stale parts of the handle cache below it (downward invalidation).
pub mod access;
pub mod cache;
pub mod containers;
pub mod invalidate;
pub mod laws;
pub mod mapper;
pub mod node;
pub mod store;
pub mod value;
pub mod write;
