//! Address ranges and their descriptors.

use super::transport::{TransportEndpoint, TransportEndpointView};
use vstd::prelude::*;

verus! {

/// A range of remote addresses.
#[derive(Clone, Copy, Debug, Eq, Hash, PartialEq, Structural)]
pub struct MemoryRegion {
    pub base: u64,
    pub size: u64,
}

impl MemoryRegion {
    pub fn new(base: u64, size: u64) -> (region: Self)
        ensures
            region == (MemoryRegion { base, size }),
    {
        Self { base, size }
    }

    pub fn base(self) -> (base: u64)
        ensures
            base == self.base,
    {
        self.base
    }

    pub fn size(self) -> (size: u64)
        ensures
            size == self.size,
    {
        self.size
    }

    /// The first address behind the range, where it is an address.
    pub fn end(self) -> (end: Option<u64>)
        ensures
            end == (if self.base + self.size <= u64::MAX {
                Some((self.base + self.size) as u64)
            } else {
                None::<u64>
            }),
    {
        self.base.checked_add(self.size)
    }
}

/// Owned descriptor for a memory reservation.
#[derive(Clone, Debug, Eq, PartialEq)]
pub struct RangeDescriptor {
    pub region: MemoryRegion,
    pub transport: TransportEndpoint,
}

/// The contents of a [`RangeDescriptor`] or a [`RangeDescriptorRef`].
pub struct RangeDescriptorView {
    pub region: MemoryRegion,
    pub transport: TransportEndpointView,
}

impl View for RangeDescriptor {
    type V = RangeDescriptorView;

    open spec fn view(&self) -> RangeDescriptorView {
        RangeDescriptorView { region: self.region, transport: self.transport@ }
    }
}

impl RangeDescriptor {
    pub fn region(&self) -> (region: MemoryRegion)
        ensures
            region == self@.region,
    {
        self.region
    }

    pub fn transport(&self) -> (transport: &TransportEndpoint)
        ensures
            transport@ == self@.transport,
    {
        &self.transport
    }
}

/// Borrowed hot-path view of a [`RangeDescriptor`].
#[derive(Clone, Copy, Debug, Eq, PartialEq)]
pub struct RangeDescriptorRef<'a> {
    pub region: MemoryRegion,
    pub transport: &'a TransportEndpoint,
}

impl<'a> View for RangeDescriptorRef<'a> {
    type V = RangeDescriptorView;

    open spec fn view(&self) -> RangeDescriptorView {
        RangeDescriptorView { region: self.region, transport: self.transport@ }
    }
}

impl<'a> RangeDescriptorRef<'a> {
    pub(crate) fn new(region: MemoryRegion, transport: &'a TransportEndpoint) -> (descriptor: Self)
        ensures
            descriptor@ == (RangeDescriptorView { region, transport: transport@ }),
    {
        Self { region, transport }
    }

    pub fn region(self) -> (region: MemoryRegion)
        ensures
            region == self@.region,
    {
        self.region
    }

    pub fn transport(self) -> (transport: &'a TransportEndpoint)
        ensures
            transport@ == self@.transport,
    {
        self.transport
    }

    pub fn to_owned(self) -> (descriptor: RangeDescriptor)
        ensures
            descriptor@ == self@,
    {
        RangeDescriptor { region: self.region, transport: self.transport.duplicate() }
    }
}

pub type ReservationDescriptor = RangeDescriptor;

pub type ReservationDescriptorRef<'a> = RangeDescriptorRef<'a>;

} // verus!
