//! What a segment registers.

use super::descriptor::MemoryRegion;
use super::identity::{SegmentIdentity, SegmentIdentityView};
use super::transport::{TransportEndpoint, TransportEndpointView};
use vstd::prelude::*;

verus! {

/// The kind of storage behind a replica.
#[derive(Clone, Copy, Debug, Eq, Hash, PartialEq, Structural)]
pub enum ReplicaClass {
    Memory,
    Nof,
    LocalSsd,
}

/// Immutable registration of a dedicated memory range.
#[derive(Clone, Debug, Eq, PartialEq)]
pub struct SegmentSpec {
    pub identity: SegmentIdentity,
    pub region: MemoryRegion,
    pub transport: TransportEndpoint,
}

/// The contents of a [`SegmentSpec`].
pub struct SegmentSpecView {
    pub identity: SegmentIdentityView,
    pub region: MemoryRegion,
    pub transport: TransportEndpointView,
}

impl View for SegmentSpec {
    type V = SegmentSpecView;

    open spec fn view(&self) -> SegmentSpecView {
        SegmentSpecView {
            identity: self.identity@,
            region: self.region,
            transport: self.transport@,
        }
    }
}

impl SegmentSpec {
    pub fn memory(
        identity: SegmentIdentity,
        region: MemoryRegion,
        transport: TransportEndpoint,
    ) -> (spec: Self)
        ensures
            spec@ == (SegmentSpecView { identity: identity@, region, transport: transport@ }),
    {
        Self { identity, region, transport }
    }

    pub fn identity(&self) -> (identity: &SegmentIdentity)
        ensures
            *identity == self.identity,
    {
        &self.identity
    }

    pub fn region(&self) -> (region: MemoryRegion)
        ensures
            region == self@.region,
    {
        self.region
    }

    pub fn transport(&self) -> (transport: &TransportEndpoint)
        ensures
            *transport == self.transport,
    {
        &self.transport
    }

    /// Every registered range is memory.
    pub fn replica_class(&self) -> (class: ReplicaClass)
        ensures
            class == ReplicaClass::Memory,
    {
        ReplicaClass::Memory
    }

    /// A registration equal to this one.
    pub fn duplicate(&self) -> (copy: Self)
        ensures
            copy == *self,
    {
        Self {
            identity: self.identity.duplicate(),
            region: self.region,
            transport: self.transport.duplicate(),
        }
    }

    /// Whether both register the same range in every respect.
    pub fn same_as(&self, other: &Self) -> (same: bool)
        ensures
            same == (self@ == other@),
    {
        self.identity.same_as(&other.identity) && self.region == other.region
            && self.transport.same_as(&other.transport)
    }
}

} // verus!
