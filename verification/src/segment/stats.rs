//! Segment operational-state and capacity diagnostics.

use vstd::prelude::*;

verus! {

/// The operational state of a segment.
#[derive(Clone, Copy, Debug, Eq, PartialEq, Structural)]
pub enum SegmentState {
    /// Published to placement and accepting new resource reservations.
    Accepting,
    /// Hidden from placement but still logically readable.
    Quiesced,
    /// Logically invalid. Outstanding resource handles may still defer the
    /// physical release of allocator state.
    Removed,
}

impl SegmentState {
    pub fn is_accepting(self) -> (accepting: bool)
        ensures
            accepting == (self == SegmentState::Accepting),
    {
        matches!(self, Self::Accepting)
    }
}

/// Capacity of one segment.
#[derive(Clone, Copy, Debug, Eq, PartialEq, Structural)]
pub struct SegmentSpaceStats {
    pub capacity_bytes: u64,
    pub used_bytes: u64,
    pub available_bytes: u64,
    pub largest_free_region_bytes: u64,
}

/// Use of one segment.
#[derive(Clone, Copy, Debug, Eq, PartialEq, Structural)]
pub struct SegmentUsageStats {
    /// Allocations, offload permits, or committed offload leases that still
    /// hold capacity in this segment.
    pub active_allocations: u64,
}

/// Diagnostics of one segment.
#[derive(Clone, Copy, Debug, Eq, PartialEq, Structural)]
pub struct SegmentStats {
    pub space: SegmentSpaceStats,
    pub usage: SegmentUsageStats,
    pub state: SegmentState,
}

/// Aggregate physical space for one replica class.
///
/// Both accepting and quiesced segments are counted because quiescing
/// placement does not release the underlying allocations.
#[derive(Clone, Copy, Debug, Eq, PartialEq, Structural)]
pub struct ReplicaClassSpaceStats {
    pub generation: u64,
    pub capacity_bytes: u64,
    pub used_bytes: u64,
    pub available_bytes: u64,
    pub largest_free_region_bytes: u64,
}

} // verus!
