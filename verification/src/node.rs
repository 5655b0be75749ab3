//! Arena slots: one tracked node together with its incoming edge.

use vstd::prelude::*;

use crate::mapper::Mapper;

verus! {

/// The runtime access state of one data cell: free, shared by `n` readers,
/// or exclusively borrowed.
#[derive(Debug, Clone, Copy, PartialEq, Eq, Structural)]
pub enum AccessState {
    Free,
    Shared(u64),
    Excl,
}

/// The fault raised when an access is requested on a path that is already
/// borrowed in a conflicting way. It is never downgraded to absence.
#[derive(Debug, Clone, Copy, PartialEq, Eq, Structural)]
pub struct BorrowConflict;

/// One slot of the node arena: the edge into this node (parent and mapper)
/// and the node's own bookkeeping. `strong` counts the handles a caller
/// holds on this node; a cache entry whose child has `strong == 0` is a dead
/// weak reference. `version` is bumped by upward invalidation, so an
/// observer of this node detects a change by polling it.
#[derive(Debug)]
pub struct NodeSlot {
    pub parent: Option<usize>,
    pub mapper: Mapper,
    pub strong: u64,
    pub version: u64,
    pub access: AccessState,
    pub cache: Vec<usize>,
}

/// A count one higher, stopping at the top of the type.
pub open spec fn bump(n: u64) -> u64 {
    if n == u64::MAX {
        n
    } else {
        (n + 1) as u64
    }
}

/// A count one lower, stopping at zero.
pub open spec fn dec(n: u64) -> u64 {
    if n == 0 {
        0
    } else {
        (n - 1) as u64
    }
}

} // verus!
