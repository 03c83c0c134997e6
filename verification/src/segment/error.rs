//! Errors returned by segment-pool operations.

use super::identity::{ClientId, SegmentId};
use super::transport::{TransportProtocol, TransportProtocolView};
use vstd::prelude::*;

verus! {

/// A transport protocol must be non-empty and contain only lowercase ASCII
/// letters, digits, `_`, or `-`.
#[derive(Clone, Copy, Debug, Eq, PartialEq, Structural)]
pub struct ParseTransportProtocolError;

/// The allocator-node budget is out of range or cannot serve every shard.
#[derive(Clone, Copy, Debug, Eq, PartialEq, Structural)]
pub struct PoolConfigError {
    pub max_allocator_nodes_per_segment: u32,
    pub allocator_shards: usize,
}

impl PoolConfigError {
    pub fn max_allocator_nodes_per_segment(&self) -> (nodes: u32)
        ensures
            nodes == self.max_allocator_nodes_per_segment,
    {
        self.max_allocator_nodes_per_segment
    }

    pub fn allocator_shards(&self) -> (shards: usize)
        ensures
            shards == self.allocator_shards,
    {
        self.allocator_shards
    }
}

/// Why a segment was not attached.
#[derive(Clone, Debug, Eq, PartialEq)]
#[allow(inconsistent_fields)]
pub enum AttachError {
    /// The segment id must not be nil.
    NilSegmentId,
    /// The segment owner id must not be nil.
    NilOwnerId,
    /// The segment name must not be empty.
    EmptyName,
    /// The base address must not be zero.
    ZeroBaseAddress,
    /// The transport endpoint must not be empty.
    EmptyTransportEndpoint,
    /// The transport protocol is not a protocol name.
    InvalidTransportProtocol { protocol: String, source: ParseTransportProtocolError },
    /// The transport protocol does not serve memory segments.
    IncompatibleTransportProtocol { protocol: TransportProtocol },
    /// The segment size must not be zero, nor the extent of the pool's shard.
    ZeroSize,
    /// The segment's address range leaves the address space.
    AddressOverflow,
    /// The segment id is already attached with different metadata.
    ConflictingSegmentId(SegmentId),
    /// The range overlaps an existing segment in the same address space.
    OverlappingAddressRange { existing: SegmentId },
    /// The pool has numbered as many attachments as it can count.
    IncarnationsExhausted,
}

/// The contents of an [`AttachError`].
#[allow(inconsistent_fields)]
pub enum AttachErrorView {
    NilSegmentId,
    NilOwnerId,
    EmptyName,
    ZeroBaseAddress,
    EmptyTransportEndpoint,
    InvalidTransportProtocol { protocol: Seq<char> },
    IncompatibleTransportProtocol { protocol: TransportProtocolView },
    ZeroSize,
    AddressOverflow,
    ConflictingSegmentId(SegmentId),
    OverlappingAddressRange { existing: SegmentId },
    IncarnationsExhausted,
}

impl View for AttachError {
    type V = AttachErrorView;

    open spec fn view(&self) -> AttachErrorView {
        match *self {
            AttachError::NilSegmentId => AttachErrorView::NilSegmentId,
            AttachError::NilOwnerId => AttachErrorView::NilOwnerId,
            AttachError::EmptyName => AttachErrorView::EmptyName,
            AttachError::ZeroBaseAddress => AttachErrorView::ZeroBaseAddress,
            AttachError::EmptyTransportEndpoint => AttachErrorView::EmptyTransportEndpoint,
            AttachError::InvalidTransportProtocol {
                protocol,
                source,
            } => AttachErrorView::InvalidTransportProtocol { protocol: protocol@ },
            AttachError::IncompatibleTransportProtocol {
                protocol,
            } => AttachErrorView::IncompatibleTransportProtocol { protocol: protocol@ },
            AttachError::ZeroSize => AttachErrorView::ZeroSize,
            AttachError::AddressOverflow => AttachErrorView::AddressOverflow,
            AttachError::ConflictingSegmentId(id) => AttachErrorView::ConflictingSegmentId(id),
            AttachError::OverlappingAddressRange {
                existing,
            } => AttachErrorView::OverlappingAddressRange { existing },
            AttachError::IncarnationsExhausted => AttachErrorView::IncarnationsExhausted,
        }
    }
}

/// Why a segment's state was not changed.
#[derive(Clone, Copy, Debug, Eq, PartialEq, Structural)]
pub enum SegmentStateError {
    /// The segment was not found.
    NotFound(SegmentId),
    /// The segment belongs to another client.
    OwnerMismatch { segment: SegmentId, expected: ClientId, actual: ClientId },
    /// The segment must be quiesced before removal.
    StillAccepting(SegmentId),
    /// The segment still has active allocations.
    Busy { segment: SegmentId, active_allocations: u64 },
}

/// Why a range was not reserved.
#[derive(Clone, Copy, Debug, Eq, PartialEq, Structural)]
pub enum ReserveError {
    /// The reservation size must not be zero.
    ZeroSize,
    /// The segment candidate belongs to another pool.
    ForeignCandidate,
    /// The segment was not found.
    NotFound(SegmentId),
    /// The segment does not support direct reservations.
    NotDirectlyAllocatable(SegmentId),
    /// The segment is not accepting reservations.
    NotAccepting(SegmentId),
    /// The segment has no suitable free range.
    OutOfSpace(SegmentId),
    /// The allocated address overflowed.
    AddressOverflow(SegmentId),
}

/// Why an offload was not admitted.
#[derive(Clone, Copy, Debug, Eq, PartialEq, Structural)]
pub enum LocalSsdError {
    /// The offload size must not be zero.
    ZeroSize,
    /// The object transport endpoint must not be empty.
    EmptyTransportEndpoint,
    /// The segment candidate belongs to another pool.
    ForeignCandidate,
    /// The segment was not found.
    NotFound(SegmentId),
    /// The segment belongs to another client.
    OwnerMismatch { segment: SegmentId, expected: ClientId, actual: ClientId },
    /// The segment is not an offload target.
    NotLocalSsd(SegmentId),
    /// The segment is not accepting offloads.
    NotAccepting(SegmentId),
    /// The segment has offloading disabled.
    OffloadDisabled(SegmentId),
    /// The segment has not reported capacity.
    CapacityNotReported(SegmentId),
    /// The segment has insufficient reported capacity.
    OutOfSpace(SegmentId),
}

} // verus!
