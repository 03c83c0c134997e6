//! Ranges handed out to callers.

use super::descriptor::{
    MemoryRegion, RangeDescriptorRef, RangeDescriptorView, ReservationDescriptor,
    ReservationDescriptorRef,
};
use super::identity::SegmentId;
use super::offset_allocator::OffsetAllocationHandle;
use super::pool::SegmentPool;
use super::spec::{ReplicaClass, SegmentSpec};
use std::sync::Arc;
use vstd::prelude::*;

verus! {

/// One range of one mounted segment.
///
/// A reservation stays valid as long as the incarnation of the segment that
/// issued it is mounted. It is given back through [`SegmentPool::release`].
#[derive(Debug)]
pub struct Reservation {
    pub pool_id: u64,
    pub incarnation: u64,
    pub allocation: OffsetAllocationHandle,
    pub segment: Arc<SegmentSpec>,
    pub region: MemoryRegion,
}

impl Reservation {
    /// The descriptor of the reserved range.
    pub open spec fn descriptor_view(&self) -> RangeDescriptorView {
        RangeDescriptorView { region: self.region, transport: self.segment.transport@ }
    }

    pub fn segment_id(&self) -> (id: SegmentId)
        ensures
            id == self.segment.identity.id,
    {
        self.segment.identity.id
    }

    pub fn replica_class(&self) -> (class: ReplicaClass)
        ensures
            class == ReplicaClass::Memory,
    {
        self.segment.replica_class()
    }

    /// Whether the mounted segment incarnation that issued this reservation
    /// is still logically valid.
    pub fn is_live(&self, pool: &SegmentPool) -> (live: bool)
        requires
            pool.wf(),
        ensures
            live == pool@.is_live(*self),
    {
        pool.is_live(self)
    }

    pub fn offset(&self) -> (offset: u64)
        ensures
            offset == self.allocation.offset,
    {
        self.allocation.offset()
    }

    pub fn requested_bytes(&self) -> (bytes: u64)
        ensures
            bytes == self.allocation.requested_bytes,
    {
        self.allocation.requested_bytes()
    }

    pub fn reserved_bytes(&self) -> (bytes: u64)
        ensures
            bytes == self.allocation.reserved_bytes,
    {
        self.allocation.reserved_bytes()
    }

    pub fn region(&self) -> (region: MemoryRegion)
        ensures
            region == self.region,
    {
        self.region
    }

    pub fn descriptor(&self) -> (descriptor: ReservationDescriptorRef<'_>)
        ensures
            descriptor@ == self.descriptor_view(),
    {
        RangeDescriptorRef::new(self.region, self.segment.transport())
    }

    pub fn owned_descriptor(&self) -> (descriptor: ReservationDescriptor)
        ensures
            descriptor@ == self.descriptor_view(),
    {
        self.descriptor().to_owned()
    }
}

} // verus!
