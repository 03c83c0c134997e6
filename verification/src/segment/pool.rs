//! The mounted segments and the capacity they offer.

use super::config::{
    SegmentPoolConfig, DEFAULT_ALLOCATOR_SHARDS, DEFAULT_MAX_ALLOCATOR_NODES_PER_SEGMENT,
    MAX_ALLOCATOR_NODES_PER_SEGMENT_EXCLUSIVE, MIN_ALLOCATOR_NODES_PER_SEGMENT,
};
use super::descriptor::MemoryRegion;
use super::error::{
    AttachError, AttachErrorView, PoolConfigError, ReserveError, SegmentStateError,
};
use super::identity::{ClientId, SegmentId};
use super::reservation::Reservation;
use super::shards::capped;
use super::space::{
    lemma_capacity, lemma_inside, lemma_missed, lemma_returned, lemma_same_layout, lemma_taken,
    own_count, ranges_of, SegmentSpace, SpaceView,
};
use super::spec::{ReplicaClass, SegmentSpec, SegmentSpecView};
use super::stats::{
    ReplicaClassSpaceStats, SegmentState, SegmentStats, SegmentUsageStats,
};
use super::transport::{is_protocol_name, TransportProtocol};
use crate::text::same_text;
use std::sync::Arc;
use vstd::prelude::*;

verus! {

/// One mounted segment.
pub struct MountedSegment {
    pub spec: SegmentSpec,
    /// Number of this attachment: a later attachment of the same segment has a
    /// larger one.
    pub incarnation: u64,
    pub state: SegmentState,
    pub space: SpaceView,
}

/// The contents of a [`SegmentPool`].
pub struct PoolView {
    pub pool_id: u64,
    pub config: SegmentPoolConfig,
    /// The mounted segments in the order of their ids.
    pub segments: Seq<MountedSegment>,
    pub next_incarnation: u64,
    /// Changes with the accepting segments.
    pub generation: u64,
    pub capacity_epoch: u64,
    pub invalidation_epoch: u64,
}

/// The order of segment ids.
pub open spec fn id_before(left: SegmentId, right: SegmentId) -> bool {
    left.high < right.high || (left.high == right.high && left.low < right.low)
}

/// The next value of a wrapping counter.
pub open spec fn next_count(count: u64) -> u64 {
    if count == u64::MAX {
        0
    } else {
        (count + 1) as u64
    }
}

/// Whether two ranges are in the same address space and meet.
pub open spec fn ranges_clash(left: SegmentSpecView, right: SegmentSpecView) -> bool {
    &&& left.identity.owner == right.identity.owner
    &&& left.transport == right.transport
    &&& left.region.base < right.region.base + right.region.size
    &&& right.region.base < left.region.base + left.region.size
}

/// The first thing that is wrong with a registration, taken by itself.
pub open spec fn spec_fault(spec: SegmentSpecView) -> Option<AttachErrorView> {
    let protocol = spec.transport.protocol.text();
    if spec.identity.id.high == 0 && spec.identity.id.low == 0 {
        Some(AttachErrorView::NilSegmentId)
    } else if spec.identity.owner.high == 0 && spec.identity.owner.low == 0 {
        Some(AttachErrorView::NilOwnerId)
    } else if spec.identity.name.len() == 0 {
        Some(AttachErrorView::EmptyName)
    } else if protocol == "cxl"@ || protocol == "nvmeof"@ {
        Some(
            AttachErrorView::IncompatibleTransportProtocol { protocol: spec.transport.protocol },
        )
    } else if spec.region.base == 0 {
        Some(AttachErrorView::ZeroBaseAddress)
    } else if spec.transport.endpoint.len() == 0 {
        Some(AttachErrorView::EmptyTransportEndpoint)
    } else if !is_protocol_name(protocol) {
        Some(AttachErrorView::InvalidTransportProtocol { protocol })
    } else if spec.region.size == 0 {
        Some(AttachErrorView::ZeroSize)
    } else if spec.region.base + spec.region.size > u64::MAX {
        Some(AttachErrorView::AddressOverflow)
    } else {
        None
    }
}

impl MountedSegment {
    pub open spec fn id(self) -> SegmentId {
        self.spec.identity.id
    }

    pub open spec fn owner(self) -> ClientId {
        self.spec.identity.owner
    }

    /// What holds of every mounted segment.
    pub open spec fn wf(self) -> bool {
        &&& self.space.wf()
        &&& spec_fault(self.spec@) is None
        &&& 0 < self.space.figures().capacity_bytes <= self.spec.region.size
        &&& self.state != SegmentState::Removed
    }

    /// The diagnostics of the segment.
    pub open spec fn stats(self) -> SegmentStats {
        SegmentStats {
            space: self.space.figures(),
            usage: SegmentUsageStats {
                active_allocations: capped(ranges_of(self.space.extents) as int),
            },
            state: self.state,
        }
    }

    /// A handle on the segment as it is now.
    pub open spec fn is_handle(self, pool_id: u64, handle: SegmentHandle) -> bool {
        &&& handle.pool_id == pool_id
        &&& handle.incarnation == self.incarnation
        &&& *handle.spec == self.spec
        &&& handle.stats == self.stats()
    }
}

impl PoolView {
    /// Where in the order the segment stands, if it is mounted.
    pub open spec fn position(self, id: SegmentId) -> Option<int> {
        if exists|i: int| 0 <= i < self.segments.len() && #[trigger] self.segments[i].id() == id {
            Some(choose|i: int| 0 <= i < self.segments.len() && #[trigger] self.segments[i].id() == id)
        } else {
            None
        }
    }

    /// The segment with an id, if it is mounted.
    pub open spec fn found(self, id: SegmentId) -> Option<MountedSegment> {
        match self.position(id) {
            Some(i) => Some(self.segments[i]),
            None => None,
        }
    }

    /// Whether exactly the same segments are mounted, each with the same
    /// registration, incarnation, state and ranges.
    pub open spec fn same_segments(self, other: PoolView) -> bool {
        forall|id: SegmentId| #[trigger] self.found(id) == other.found(id)
    }

    /// Where the incarnation that a handle stands for is mounted.
    pub open spec fn mounted_at(self, id: SegmentId, incarnation: u64) -> Option<int> {
        match self.position(id) {
            Some(i) => if self.segments[i].incarnation == incarnation {
                Some(i)
            } else {
                None
            },
            None => None,
        }
    }

    /// Whether the incarnation that issued a reservation is still mounted.
    pub open spec fn is_live(self, reservation: Reservation) -> bool {
        reservation.pool_id == self.pool_id && self.mounted_at(
            reservation.segment.identity.id,
            reservation.incarnation,
        ) is Some
    }

    /// What holds of every reachable pool: ids are strictly ascending, so no
    /// segment is mounted twice; no two segments of one address space meet; and
    /// incarnation numbers are never given out again.
    pub open spec fn wf(self) -> bool {
        &&& self.config.is_valid()
        &&& forall|i: int| 0 <= i < self.segments.len() ==> (#[trigger] self.segments[i]).wf()
        &&& forall|i: int|
            0 <= i < self.segments.len() ==> (#[trigger] self.segments[i]).incarnation
                < self.next_incarnation && self.segments[i].space.fits_layout(
                self.config,
                self.segments[i].spec.region.size,
            )
        &&& forall|i: int, j: int|
            0 <= i < j < self.segments.len() ==> id_before(
                (#[trigger] self.segments[i]).id(),
                (#[trigger] self.segments[j]).id(),
            )
        &&& forall|i: int, j: int|
            0 <= i < j < self.segments.len() ==> (#[trigger] self.segments[i]).incarnation
                != (#[trigger] self.segments[j]).incarnation
        &&& forall|i: int, j: int|
            0 <= i < j < self.segments.len() ==> !ranges_clash(
                (#[trigger] self.segments[i]).spec@,
                (#[trigger] self.segments[j]).spec@,
            )
    }

    /// The pool with another state of one segment.
    pub open spec fn with_state(self, i: int, state: SegmentState) -> PoolView {
        PoolView {
            segments: self.segments.update(i, MountedSegment { state, ..self.segments[i] }),
            generation: if (state == SegmentState::Accepting) != (self.segments[i].state
                == SegmentState::Accepting) {
                next_count(self.generation)
            } else {
                self.generation
            },
            ..self
        }
    }

    /// The pool with other live ranges in one segment.
    pub open spec fn with_space(self, i: int, space: SpaceView) -> PoolView {
        PoolView {
            segments: self.segments.update(i, MountedSegment { space, ..self.segments[i] }),
            ..self
        }
    }

    /// The pool after a change of its direct capacity was announced.
    pub open spec fn capacity_announced(self) -> PoolView {
        PoolView { capacity_epoch: next_count(self.capacity_epoch), ..self }
    }

    /// Why a client may not change the state of a segment.
    pub open spec fn ownership_fault(self, owner: ClientId, id: SegmentId) -> Option<
        SegmentStateError,
    > {
        match self.position(id) {
            None => Some(SegmentStateError::NotFound(id)),
            Some(i) => if self.segments[i].owner() != owner {
                Some(
                    SegmentStateError::OwnerMismatch {
                        segment: id,
                        expected: self.segments[i].owner(),
                        actual: owner,
                    },
                )
            } else {
                None
            },
        }
    }

    /// The first mounted segment from position `from` on, in the order of ids,
    /// that a registration would meet.
    pub open spec fn first_clash(self, spec: SegmentSpecView, from: int) -> Option<SegmentId>
        decreases self.segments.len() - from,
    {
        if from < 0 || from >= self.segments.len() {
            None
        } else if ranges_clash(spec, self.segments[from].spec@) {
            Some(self.segments[from].id())
        } else {
            self.first_clash(spec, from + 1)
        }
    }

    /// Why a registration that is in order by itself is not mounted, if it is
    /// not mounted already. A region with fewer bytes than there are shards has
    /// nothing for the last of them.
    pub open spec fn mount_fault(self, spec: SegmentSpecView) -> Option<AttachErrorView> {
        match self.position(spec.identity.id) {
            Some(i) => if self.segments[i].spec@ == spec {
                None
            } else {
                Some(AttachErrorView::ConflictingSegmentId(spec.identity.id))
            },
            None => match self.first_clash(spec, 0) {
                Some(existing) => Some(AttachErrorView::OverlappingAddressRange { existing }),
                None => if self.next_incarnation == u64::MAX {
                    Some(AttachErrorView::IncarnationsExhausted)
                } else if own_count(self.config, spec.region.size) == 0 {
                    Some(AttachErrorView::ZeroSize)
                } else {
                    None
                },
            },
        }
    }

    /// Why a registration is refused.
    pub open spec fn attach_fault(self, spec: SegmentSpecView) -> Option<AttachErrorView> {
        match spec_fault(spec) {
            Some(fault) => Some(fault),
            None => self.mount_fault(spec),
        }
    }

    /// Whether `after` is this pool with one more segment, fully free, in the
    /// given state.
    pub open spec fn gained(
        self,
        after: PoolView,
        spec: SegmentSpecView,
        state: SegmentState,
    ) -> bool {
        exists|i: int|
            {
                &&& 0 <= i <= self.segments.len()
                &&& #[trigger] after.segments[i].spec@ == spec
                &&& after.segments == self.segments.insert(i, after.segments[i])
                &&& after.segments[i].incarnation == self.next_incarnation
                &&& after.segments[i].state == state
                &&& after.segments[i].space.is_fresh(self.config, spec.region.size)
            }
    }

    /// What attaching a segment in a state comes to. A segment that is attached
    /// already keeps its state. A new one is fully free; one that starts out
    /// quiesced is announced twice, as it comes and as it is hidden.
    pub open spec fn attach_outcome(
        self,
        after: PoolView,
        spec: SegmentSpecView,
        state: SegmentState,
        attached: Result<AttachOutcome, AttachError>,
    ) -> bool {
        match attached {
            Err(error) => self.attach_fault(spec) == Some(error@) && after == self,
            Ok(AttachOutcome::AlreadyAttached(handle)) => {
                &&& self.attach_fault(spec) is None
                &&& self.position(spec.identity.id) matches Some(i) && self.segments[i].is_handle(
                    self.pool_id,
                    handle,
                )
                &&& after == self.capacity_announced()
            },
            Ok(AttachOutcome::Attached(handle)) => {
                &&& self.attach_fault(spec) is None
                &&& self.position(spec.identity.id) is None
                &&& self.gained(after, spec, state)
                &&& after == (PoolView {
                    segments: after.segments,
                    next_incarnation: (self.next_incarnation + 1) as u64,
                    generation: if state == SegmentState::Accepting {
                        next_count(self.generation)
                    } else {
                        next_count(next_count(self.generation))
                    },
                    ..self.capacity_announced()
                })
                &&& after.position(spec.identity.id) matches Some(i)
                    && after.segments[i].is_handle(self.pool_id, handle)
            },
        }
    }

    /// The pool after a client asked for a segment to be hidden.
    pub open spec fn after_quiesce(self, owner: ClientId, id: SegmentId) -> PoolView {
        match self.ownership_fault(owner, id) {
            Some(_) => self,
            None => self.with_state(
                self.position(id).unwrap(),
                SegmentState::Quiesced,
            ).capacity_announced(),
        }
    }

    /// The pool after a client asked for a segment to be published.
    pub open spec fn after_reactivate(self, owner: ClientId, id: SegmentId) -> PoolView {
        match self.ownership_fault(owner, id) {
            Some(_) => self,
            None => self.with_state(
                self.position(id).unwrap(),
                SegmentState::Accepting,
            ).capacity_announced(),
        }
    }

    /// The pool after a client asked for a segment to be removed.
    pub open spec fn after_remove(self, owner: ClientId, id: SegmentId) -> PoolView {
        match self.removal_fault(owner, id) {
            Some(_) => self,
            None => self.without(self.position(id).unwrap()),
        }
    }

    /// Why a reservation of `bytes` on a handle is refused.
    pub open spec fn reserve_fault(self, handle: SegmentHandle, bytes: u64) -> Option<
        ReserveError,
    > {
        let id = handle.spec.identity.id;
        if handle.pool_id != self.pool_id {
            Some(ReserveError::ForeignCandidate)
        } else if bytes == 0 {
            Some(ReserveError::ZeroSize)
        } else {
            match self.mounted_at(id, handle.incarnation) {
                None => Some(ReserveError::NotAccepting(id)),
                Some(i) => if !self.segments[i].space.may_satisfy(bytes as nat) {
                    Some(ReserveError::OutOfSpace(id))
                } else if self.segments[i].state != SegmentState::Accepting {
                    Some(ReserveError::NotAccepting(id))
                } else if !self.segments[i].space.fits(bytes as nat) {
                    Some(ReserveError::OutOfSpace(id))
                } else {
                    None
                },
            }
        }
    }

    /// The pool after a refused reservation: only the upper bound that the
    /// segment keeps for its largest free range may have been lowered.
    pub open spec fn after_refusal(self, handle: SegmentHandle, bytes: u64) -> PoolView {
        match self.mounted_at(handle.spec.identity.id, handle.incarnation) {
            Some(i) => if handle.pool_id == self.pool_id && self.segments[i].space.may_satisfy(
                bytes as nat,
            ) && self.segments[i].state == SegmentState::Accepting {
                self.with_space(i, self.segments[i].space.missed(bytes))
            } else {
                self
            },
            None => self,
        }
    }

    /// Whether `after` is this pool with one range more handed out, for which
    /// `reservation` stands.
    pub open spec fn reserved(
        self,
        after: PoolView,
        handle: SegmentHandle,
        bytes: u64,
        reservation: Reservation,
    ) -> bool {
        match self.mounted_at(handle.spec.identity.id, handle.incarnation) {
            None => false,
            Some(i) => {
                &&& after == self.with_space(i, after.segments[i].space)
                &&& self.segments[i].space.taken(
                    after.segments[i].space,
                    reservation.allocation,
                    bytes,
                )
                &&& reservation.pool_id == self.pool_id
                &&& reservation.incarnation == handle.incarnation
                &&& *reservation.segment == self.segments[i].spec
                &&& reservation.region.base == self.segments[i].spec.region.base
                    + reservation.allocation.offset
                &&& reservation.region.size == bytes
            },
        }
    }

    /// Where the range of a reservation is still out.
    pub open spec fn holding(self, reservation: Reservation) -> Option<int> {
        if reservation.pool_id != self.pool_id {
            None
        } else {
            match self.mounted_at(reservation.segment.identity.id, reservation.incarnation) {
                Some(i) => if self.segments[i].space.holds(reservation.allocation) {
                    Some(i)
                } else {
                    None
                },
                None => None,
            }
        }
    }

    /// Whether `after` is this pool with the range of a reservation free again.
    pub open spec fn released(self, after: PoolView, reservation: Reservation) -> bool {
        match self.holding(reservation) {
            None => after == self,
            Some(i) => {
                &&& after == self.with_space(i, after.segments[i].space)
                &&& self.segments[i].space.returned(
                    after.segments[i].space,
                    reservation.allocation,
                )
            },
        }
    }

    /// Whether `owners` names the owner of the segment.
    pub open spec fn owned_by(owners: Seq<ClientId>, segment: MountedSegment) -> bool {
        owners.contains(segment.owner())
    }

    /// The segments that stay when the segments of `owners` go.
    pub open spec fn without_owners(self, owners: Seq<ClientId>) -> Seq<MountedSegment> {
        self.segments.filter(|segment: MountedSegment| !Self::owned_by(owners, segment))
    }
}

/// Metadata and runtime-state handle for one logical segment.
///
/// This handle does not represent an allocation and therefore never blocks
/// removal by itself. Pass it to [`SegmentPool::reserve`] to reserve capacity.
/// Its diagnostics are those of the moment in which it was made.
#[derive(Debug)]
pub struct SegmentHandle {
    pub pool_id: u64,
    pub incarnation: u64,
    pub spec: Arc<SegmentSpec>,
    pub stats: SegmentStats,
}

/// Identity of one concrete segment attachment.
///
/// It is used by deferred lifecycle work to fence a later attachment that
/// reuses the same logical segment id.
#[derive(Clone, Copy, Debug, Eq, PartialEq, Structural)]
pub struct SegmentIncarnation {
    pub pool_id: u64,
    pub segment: SegmentId,
    pub incarnation: u64,
}

impl Clone for SegmentHandle {
    fn clone(&self) -> (copy: Self)
        ensures
            copy == *self,
    {
        Self {
            pool_id: self.pool_id,
            incarnation: self.incarnation,
            spec: self.spec.clone(),
            stats: self.stats,
        }
    }
}

impl SegmentHandle {
    pub fn id(&self) -> (id: SegmentId)
        ensures
            id == self.spec.identity.id,
    {
        self.spec.identity.id
    }

    pub fn spec(&self) -> (spec: &SegmentSpec)
        ensures
            *spec == *self.spec,
    {
        &self.spec
    }

    pub fn replica_class(&self) -> (class: ReplicaClass)
        ensures
            class == ReplicaClass::Memory,
    {
        self.spec.replica_class()
    }

    pub fn stats(&self) -> (stats: SegmentStats)
        ensures
            stats == self.stats,
    {
        self.stats
    }

    pub fn incarnation(&self) -> (incarnation: SegmentIncarnation)
        ensures
            incarnation == (SegmentIncarnation {
                pool_id: self.pool_id,
                segment: self.spec.identity.id,
                incarnation: self.incarnation,
            }),
    {
        SegmentIncarnation {
            pool_id: self.pool_id,
            segment: self.spec.identity.id,
            incarnation: self.incarnation,
        }
    }
}

impl SegmentIncarnation {
    /// Whether the handle stands for this attachment.
    pub fn matches(&self, segment: &SegmentHandle) -> (same: bool)
        ensures
            same == (self.pool_id == segment.pool_id && self.segment == segment.spec.identity.id
                && self.incarnation == segment.incarnation),
    {
        self.pool_id == segment.pool_id && self.segment == segment.spec.identity.id
            && self.incarnation == segment.incarnation
    }

    pub fn same_as(&self, other: &Self) -> (same: bool)
        ensures
            same == (*self == *other),
    {
        *self == *other
    }
}

/// The accepting segments of one replica class at one moment, in the order of
/// their ids.
#[derive(Debug)]
pub struct PoolSnapshot {
    pub generation: u64,
    pub replica_class: ReplicaClass,
    pub candidates: Vec<SegmentHandle>,
}

/// Capacity currently accepting direct allocations for one replica class.
///
/// Each mounted memory segment owns independent capacity.
#[derive(Clone, Copy, Debug, Eq, PartialEq, Structural)]
pub struct ReplicaClassCapacity {
    pub generation: u64,
    pub replica_class: ReplicaClass,
    pub capacity_bytes: u64,
}

impl ReplicaClassCapacity {
    pub fn generation(self) -> (generation: u64)
        ensures
            generation == self.generation,
    {
        self.generation
    }

    pub fn replica_class(self) -> (class: ReplicaClass)
        ensures
            class == self.replica_class,
    {
        self.replica_class
    }

    pub fn capacity_bytes(self) -> (bytes: u64)
        ensures
            bytes == self.capacity_bytes,
    {
        self.capacity_bytes
    }
}

impl PoolSnapshot {
    pub fn generation(&self) -> (generation: u64)
        ensures
            generation == self.generation,
    {
        self.generation
    }

    pub fn replica_class(&self) -> (class: ReplicaClass)
        ensures
            class == self.replica_class,
    {
        self.replica_class
    }

    pub fn candidates(&self) -> (candidates: &[SegmentHandle])
        ensures
            candidates@ == self.candidates@,
    {
        self.candidates.as_slice()
    }

    pub fn len(&self) -> (length: usize)
        ensures
            length == self.candidates@.len(),
    {
        self.candidates.len()
    }

    pub fn is_empty(&self) -> (empty: bool)
        ensures
            empty == (self.candidates@.len() == 0),
    {
        self.candidates.len() == 0
    }
}

/// What attaching a segment came to.
#[derive(Debug)]
pub enum AttachOutcome {
    Attached(SegmentHandle),
    AlreadyAttached(SegmentHandle),
}

impl AttachOutcome {
    /// The segment that is mounted now.
    pub open spec fn handle(self) -> SegmentHandle {
        match self {
            AttachOutcome::Attached(segment) => segment,
            AttachOutcome::AlreadyAttached(segment) => segment,
        }
    }

    pub fn segment(&self) -> (segment: &SegmentHandle)
        ensures
            *segment == self.handle(),
    {
        match self {
            Self::Attached(segment) => segment,
            Self::AlreadyAttached(segment) => segment,
        }
    }

    pub fn is_new(&self) -> (new: bool)
        ensures
            new == (self is Attached),
    {
        matches!(self, Self::Attached(_))
    }
}

/// One mounted segment with its allocator.
struct SegmentEntry {
    spec: Arc<SegmentSpec>,
    incarnation: u64,
    state: SegmentState,
    allocator: SegmentSpace,
}

impl View for SegmentEntry {
    type V = MountedSegment;

    closed spec fn view(&self) -> MountedSegment {
        MountedSegment {
            spec: *self.spec,
            incarnation: self.incarnation,
            state: self.state,
            space: self.allocator@,
        }
    }
}

impl SegmentEntry {
    fn stats(&self) -> (stats: SegmentStats)
        requires
            self.allocator.wf(),
        ensures
            stats == self@.stats(),
    {
        SegmentStats {
            space: self.allocator.stats(),
            usage: SegmentUsageStats { active_allocations: self.allocator.live_allocations() },
            state: self.state,
        }
    }

    fn handle(&self, pool_id: u64) -> (handle: SegmentHandle)
        requires
            self.allocator.wf(),
        ensures
            self@.is_handle(pool_id, handle),
    {
        SegmentHandle {
            pool_id,
            incarnation: self.incarnation,
            spec: self.spec.clone(),
            stats: self.stats(),
        }
    }
}

/// The mounted segments of one process.
pub struct SegmentPool {
    pool_id: u64,
    config: SegmentPoolConfig,
    segments: Vec<SegmentEntry>,
    next_incarnation: u64,
    generation: u64,
    direct_capacity_epoch: u64,
    invalidation_epoch: u64,
}

impl View for SegmentPool {
    type V = PoolView;

    closed spec fn view(&self) -> PoolView {
        PoolView {
            pool_id: self.pool_id,
            config: self.config,
            segments: self.segments@.map_values(|entry: SegmentEntry| entry@),
            next_incarnation: self.next_incarnation,
            generation: self.generation,
            capacity_epoch: self.direct_capacity_epoch,
            invalidation_epoch: self.invalidation_epoch,
        }
    }
}

/// A position is where its segment stands, and there is only one.
pub proof fn lemma_position(pool: PoolView, i: int)
    requires
        pool.wf(),
        0 <= i < pool.segments.len(),
    ensures
        pool.position(pool.segments[i].id()) == Some(i),
{
    let id = pool.segments[i].id();
    let j = choose|j: int| 0 <= j < pool.segments.len() && #[trigger] pool.segments[j].id() == id;
    assert(0 <= j < pool.segments.len() && pool.segments[j].id() == id);
    if j < i {
        assert(id_before(pool.segments[j].id(), pool.segments[i].id()));
    } else if i < j {
        assert(id_before(pool.segments[i].id(), pool.segments[j].id()));
    }
}

/// Checks a registration by itself.
fn validate_spec(spec: &SegmentSpec) -> (checked: Result<(), AttachError>)
    ensures
        checked.is_ok() == (spec_fault(spec@) is None),
        checked matches Err(error) ==> spec_fault(spec@) == Some(error@),
{
    if spec.identity().id().is_nil() {
        return Err(AttachError::NilSegmentId);
    }
    if spec.identity().owner().is_nil() {
        return Err(AttachError::NilOwnerId);
    }
    if spec.identity().name().is_empty() {
        return Err(AttachError::EmptyName);
    }
    let protocol = spec.transport().protocol().as_str();
    if same_text(protocol, "cxl") || same_text(protocol, "nvmeof") {
        return Err(
            AttachError::IncompatibleTransportProtocol {
                protocol: spec.transport().protocol().duplicate(),
            },
        );
    }
    if spec.region().base() == 0 {
        return Err(AttachError::ZeroBaseAddress);
    }
    if spec.transport().endpoint().is_empty() {
        return Err(AttachError::EmptyTransportEndpoint);
    }
    if let Err(source) = TransportProtocol::parse(protocol) {
        return Err(AttachError::InvalidTransportProtocol { protocol: protocol.to_owned(), source });
    }
    if spec.region().size() == 0 {
        return Err(AttachError::ZeroSize);
    }
    match spec.region().end() {
        Some(_) => Ok(()),
        None => Err(AttachError::AddressOverflow),
    }
}

fn id_is_before(left: SegmentId, right: SegmentId) -> (before: bool)
    ensures
        before == id_before(left, right),
{
    left.high < right.high || (left.high == right.high && left.low < right.low)
}

fn count_up(count: u64) -> (next: u64)
    ensures
        next == next_count(count),
{
    if count == u64::MAX {
        0
    } else {
        count + 1
    }
}

impl SegmentPool {
    /// What ties the fields together.
    pub closed spec fn wf(&self) -> bool {
        &&& self@.wf()
        &&& forall|i: int|
            0 <= i < self.segments@.len() ==> (#[trigger] self.segments@[i]).allocator.wf()
    }

    /// A pool's own invariant, for callers that hold the pool.
    pub proof fn lemma_wf(&self)
        requires
            self.wf(),
        ensures
            self@.wf(),
    {
    }

    /// An empty pool with the default configuration.
    pub fn new(pool_id: u64) -> (pool: Self)
        ensures
            pool.wf(),
            pool@ == (PoolView {
                pool_id,
                config: SegmentPoolConfig {
                    max_allocator_nodes_per_segment: DEFAULT_MAX_ALLOCATOR_NODES_PER_SEGMENT,
                    allocator_shards: DEFAULT_ALLOCATOR_SHARDS,
                    allocator_shard_index: None,
                },
                segments: Seq::empty(),
                next_incarnation: 1,
                generation: 0,
                capacity_epoch: 0,
                invalidation_epoch: 0,
            }),
    {
        let pool = Self {
            pool_id,
            config: SegmentPoolConfig::default(),
            segments: Vec::new(),
            next_incarnation: 1,
            generation: 0,
            direct_capacity_epoch: 0,
            invalidation_epoch: 0,
        };
        assert(pool@.segments =~= Seq::empty());
        pool
    }

    /// An empty pool. `pool_id` tells the pool's handles and reservations from
    /// those of other pools.
    pub fn with_config(pool_id: u64, config: SegmentPoolConfig) -> (made: Result<
        Self,
        PoolConfigError,
    >)
        ensures
            made.is_ok() == config.is_valid(),
            made matches Err(error) ==> error == (PoolConfigError {
                max_allocator_nodes_per_segment: config.max_allocator_nodes_per_segment,
                allocator_shards: config.allocator_shards,
            }),
            made matches Ok(pool) ==> pool.wf() && pool@ == (PoolView {
                pool_id,
                config,
                segments: Seq::empty(),
                next_incarnation: 1,
                generation: 0,
                capacity_epoch: 0,
                invalidation_epoch: 0,
            }),
    {
        let nodes: u32 = config.max_allocator_nodes_per_segment;
        if nodes < MIN_ALLOCATOR_NODES_PER_SEGMENT || nodes
            >= MAX_ALLOCATOR_NODES_PER_SEGMENT_EXCLUSIVE || config.allocator_shards == 0
            || (nodes as u64) / (config.allocator_shards as u64)
            < MIN_ALLOCATOR_NODES_PER_SEGMENT as u64 {
            return Err(
                PoolConfigError {
                    max_allocator_nodes_per_segment: nodes,
                    allocator_shards: config.allocator_shards,
                },
            );
        }
        let pool = Self {
            pool_id,
            config,
            segments: Vec::new(),
            next_incarnation: 1,
            generation: 0,
            direct_capacity_epoch: 0,
            invalidation_epoch: 0,
        };
        assert(pool@.segments =~= Seq::empty());
        Ok(pool)
    }

    /// Where the segment is, or where it would be inserted.
    fn locate(&self, id: SegmentId) -> (found: Result<usize, usize>)
        requires
            self.wf(),
        ensures
            match found {
                Ok(i) => i < self@.segments.len() && self@.segments[i as int].id() == id
                    && self@.position(id) == Some(i as int),
                Err(i) => {
                    &&& i <= self@.segments.len()
                    &&& self@.position(id) is None
                    &&& forall|j: int|
                        0 <= j < i ==> id_before((#[trigger] self@.segments[j]).id(), id)
                    &&& forall|j: int|
                        i <= j < self@.segments.len() ==> id_before(
                            id,
                            (#[trigger] self@.segments[j]).id(),
                        )
                },
            },
    {
        let mut low: usize = 0;
        let mut high: usize = self.segments.len();
        while low < high
            invariant
                self.wf(),
                low <= high <= self.segments@.len(),
                forall|j: int| 0 <= j < low ==> id_before((#[trigger] self@.segments[j]).id(), id),
                forall|j: int|
                    high <= j < self@.segments.len() ==> id_before(
                        id,
                        (#[trigger] self@.segments[j]).id(),
                    ),
            decreases high - low,
        {
            let middle: usize = low + (high - low) / 2;
            let current = self.segments[middle].spec.identity().id();
            assert(current == self@.segments[middle as int].id());
            if current == id {
                proof {
                    lemma_position(self@, middle as int);
                }
                return Ok(middle);
            }
            if id_is_before(current, id) {
                assert forall|j: int| 0 <= j < middle + 1 implies id_before(
                    (#[trigger] self@.segments[j]).id(),
                    id,
                ) by {
                    if j < middle {
                        assert(id_before(
                            self@.segments[j].id(),
                            self@.segments[middle as int].id(),
                        ));
                    }
                }
                low = middle + 1;
            } else {
                assert forall|j: int| middle <= j < self@.segments.len() implies id_before(
                    id,
                    (#[trigger] self@.segments[j]).id(),
                ) by {
                    if middle < j {
                        assert(id_before(
                            self@.segments[middle as int].id(),
                            self@.segments[j].id(),
                        ));
                    }
                }
                high = middle;
            }
        }
        Err(low)
    }

    /// The mounted segment, if it is mounted.
    fn find(&self, id: SegmentId) -> (found: Option<usize>)
        requires
            self.wf(),
        ensures
            match found {
                Some(i) => i < self@.segments.len() && self@.segments[i as int].id() == id
                    && self@.position(id) == Some(i as int),
                None => self@.position(id) is None,
            },
    {
        match self.locate(id) {
            Ok(i) => Some(i),
            Err(_) => None,
        }
    }

    /// The mounted incarnation, if it is mounted.
    fn find_mounted(&self, id: SegmentId, incarnation: u64) -> (found: Option<usize>)
        requires
            self.wf(),
        ensures
            match found {
                Some(i) => i < self@.segments.len() && self@.segments[i as int].id() == id
                    && self@.mounted_at(id, incarnation) == Some(i as int),
                None => self@.mounted_at(id, incarnation) is None,
            },
    {
        match self.find(id) {
            Some(i) => if self.segments[i].incarnation == incarnation {
                Some(i)
            } else {
                None
            },
            None => None,
        }
    }

    /// Whether the incarnation that issued a reservation is still mounted.
    pub fn is_live(&self, reservation: &Reservation) -> (live: bool)
        requires
            self.wf(),
        ensures
            live == self@.is_live(*reservation),
    {
        reservation.pool_id == self.pool_id && self.find_mounted(
            reservation.segment.identity.id,
            reservation.incarnation,
        ).is_some()
    }

    /// The id of the first mounted segment that the registration would meet.
    fn find_clash(&self, spec: &SegmentSpec) -> (clash: Option<SegmentId>)
        requires
            self.wf(),
            spec_fault(spec@) is None,
        ensures
            clash == self@.first_clash(spec@, 0),
    {
        let end: u64 = spec.region.base + spec.region.size;
        let mut i: usize = 0;
        while i < self.segments.len()
            invariant
                self.wf(),
                spec_fault(spec@) is None,
                end == spec.region.base + spec.region.size,
                0 <= i <= self.segments@.len(),
                self@.first_clash(spec@, 0) == self@.first_clash(spec@, i as int),
            decreases self.segments@.len() - i,
        {
            let existing = &self.segments[i].spec;
            assert(self@.segments[i as int].spec == *existing);
            assert(self@.segments[i as int].wf());
            if existing.identity.owner == spec.identity.owner && existing.transport.same_as(
                &spec.transport,
            ) && spec.region.base < existing.region.base + existing.region.size
                && existing.region.base < end {
                return Some(existing.identity.id);
            }
            i = i + 1;
        }
        None
    }

    /// Mounts a registration that is in order by itself. Its region is split
    /// into one extent for each shard.
    fn mount(&mut self, spec: SegmentSpec, state: SegmentState) -> (mounted: Result<
        AttachOutcome,
        AttachError,
    >)
        requires
            old(self).wf(),
            spec_fault(spec@) is None,
            state != SegmentState::Removed,
        ensures
            final(self).wf(),
            mounted.is_ok() == (old(self)@.mount_fault(spec@) is None),
            mounted matches Err(error) ==> {
                &&& old(self)@.mount_fault(spec@) == Some(error@)
                &&& *final(self) == *old(self)
            },
            mounted matches Ok(AttachOutcome::AlreadyAttached(handle)) ==> {
                &&& old(self)@.position(spec@.identity.id) matches Some(i)
                    && old(self)@.segments[i].is_handle(old(self)@.pool_id, handle)
                &&& *final(self) == *old(self)
            },
            mounted matches Ok(AttachOutcome::Attached(handle)) ==> {
                &&& old(self)@.position(spec@.identity.id) is None
                &&& old(self)@.gained(final(self)@, spec@, state)
                &&& final(self)@ == (PoolView {
                    segments: final(self)@.segments,
                    next_incarnation: (old(self)@.next_incarnation + 1) as u64,
                    ..old(self)@
                })
                &&& final(self)@.position(spec@.identity.id) matches Some(i)
                    && final(self)@.segments[i].is_handle(old(self)@.pool_id, handle)
            },
    {
        let id = spec.identity.id;
        match self.locate(id) {
            Ok(i) => {
                if self.segments[i].spec.same_as(&spec) {
                    Ok(AttachOutcome::AlreadyAttached(self.segments[i].handle(self.pool_id)))
                } else {
                    Err(AttachError::ConflictingSegmentId(id))
                }
            },
            Err(place) => {
                if let Some(existing) = self.find_clash(&spec) {
                    return Err(AttachError::OverlappingAddressRange { existing });
                }
                if self.next_incarnation == u64::MAX {
                    return Err(AttachError::IncarnationsExhausted);
                }
                let ghost before = self@;
                let ghost before_entries = self.segments@;
                let allocator = match SegmentSpace::new(self.config, spec.region.size) {
                    Some(allocator) => allocator,
                    None => return Err(AttachError::ZeroSize),
                };
                let incarnation: u64 = self.next_incarnation;
                let entry = SegmentEntry { spec: Arc::new(spec), incarnation, state, allocator };
                let handle = entry.handle(self.pool_id);
                let ghost added = entry@;
                proof {
                    entry.allocator.lemma_wf();
                    lemma_capacity(added.space, self.config, spec.region.size);
                }
                self.segments.insert(place, entry);
                self.next_incarnation = incarnation + 1;
                proof {
                    let after = self@;
                    assert(after.segments =~= before.segments.insert(place as int, added));
                    assert forall|i: int, j: int| 0 <= i < j < after.segments.len() implies
                        id_before(
                        (#[trigger] after.segments[i]).id(),
                        (#[trigger] after.segments[j]).id(),
                    ) && after.segments[i].incarnation != after.segments[j].incarnation
                        && !ranges_clash(after.segments[i].spec@, after.segments[j].spec@) by {
                        let place = place as int;
                        let old_i = if i < place { i } else { i - 1 };
                        let old_j = if j < place { j } else { j - 1 };
                        if i == place {
                            lemma_no_clash(before, spec@, 0, old_j);
                            assert(before.segments[old_j].incarnation < before.next_incarnation);
                        } else if j == place {
                            lemma_no_clash(before, spec@, 0, old_i);
                            assert(before.segments[old_i].incarnation < before.next_incarnation);
                        } else {
                            assert(old_i < old_j);
                            assert(id_before(
                                before.segments[old_i].id(),
                                before.segments[old_j].id(),
                            ));
                        }
                    }
                    assert forall|i: int| 0 <= i < after.segments.len() implies {
                        &&& (#[trigger] after.segments[i]).wf()
                        &&& after.segments[i].incarnation < after.next_incarnation
                    } by {
                        if i < place {
                            assert(before.segments[i].wf());
                        } else if i > place {
                            assert(before.segments[i - 1].wf());
                        }
                    }
                    assert forall|i: int| 0 <= i < self.segments@.len() implies (
                    #[trigger] self.segments@[i]).allocator.wf() by {
                        if i < place {
                            assert(before_entries[i].allocator.wf());
                        } else if i > place {
                            assert(before_entries[i - 1].allocator.wf());
                        }
                    }
                    assert(after.wf());
                    lemma_position(after, place as int);
                    assert(after.segments[place as int] == added);
                    assert(before.gained(after, spec@, state));
                }
                Ok(AttachOutcome::Attached(handle))
            },
        }
    }

    /// Attaches a segment and publishes it to placement. Attaching what is
    /// already attached in the same way changes nothing of it.
    pub fn attach(&mut self, spec: SegmentSpec) -> (attached: Result<AttachOutcome, AttachError>)
        requires
            old(self).wf(),
        ensures
            final(self).wf(),
            old(self)@.attach_outcome(final(self)@, spec@, SegmentState::Accepting, attached),
    {
        if let Err(error) = validate_spec(&spec) {
            return Err(error);
        }
        let outcome = match self.mount(spec, SegmentState::Accepting) {
            Ok(outcome) => outcome,
            Err(error) => return Err(error),
        };
        if outcome.is_new() {
            self.generation = count_up(self.generation);
        }
        self.direct_capacity_epoch = count_up(self.direct_capacity_epoch);
        Ok(outcome)
    }

    /// Attaches a new segment without publishing it to accepting snapshots.
    /// Existing idempotent mounts retain their current state.
    pub fn attach_quiesced(&mut self, spec: SegmentSpec) -> (attached: Result<
        AttachOutcome,
        AttachError,
    >)
        requires
            old(self).wf(),
        ensures
            final(self).wf(),
            old(self)@.attach_outcome(final(self)@, spec@, SegmentState::Quiesced, attached),
    {
        if let Err(error) = validate_spec(&spec) {
            return Err(error);
        }
        let outcome = match self.mount(spec, SegmentState::Quiesced) {
            Ok(outcome) => outcome,
            Err(error) => return Err(error),
        };
        if outcome.is_new() {
            self.generation = count_up(count_up(self.generation));
        }
        self.direct_capacity_epoch = count_up(self.direct_capacity_epoch);
        Ok(outcome)
    }
}

/// The sum of one figure over segments.
pub open spec fn sum_over(segments: Seq<MountedSegment>, figure: spec_fn(MountedSegment) -> int) -> int
    decreases segments.len(),
{
    if segments.len() == 0 {
        0
    } else {
        sum_over(segments.drop_last(), figure) + figure(segments.last())
    }
}

/// The largest of one figure over segments, and at least zero.
pub open spec fn max_over(segments: Seq<MountedSegment>, figure: spec_fn(MountedSegment) -> int) -> int
    decreases segments.len(),
{
    if segments.len() == 0 {
        0
    } else {
        let rest = max_over(segments.drop_last(), figure);
        let last = figure(segments.last());
        if rest > last {
            rest
        } else {
            last
        }
    }
}

impl PoolView {
    /// The segments that placement sees for a class.
    pub open spec fn accepting(self, class: ReplicaClass) -> Seq<MountedSegment> {
        if class == ReplicaClass::Memory {
            self.segments.filter(
                |segment: MountedSegment| segment.state == SegmentState::Accepting,
            )
        } else {
            Seq::empty()
        }
    }

    /// The capacity behind the segments that placement sees for a class.
    pub open spec fn capacity_of(self, class: ReplicaClass) -> u64 {
        capped(
            sum_over(
                self.accepting(class),
                |segment: MountedSegment| segment.space.figures().capacity_bytes as int,
            ),
        )
    }

    /// All mounted segments of a class.
    pub open spec fn of_class(self, class: ReplicaClass) -> Seq<MountedSegment> {
        if class == ReplicaClass::Memory {
            self.segments
        } else {
            Seq::empty()
        }
    }

    /// The space of all mounted segments of a class together.
    pub open spec fn space_of(self, class: ReplicaClass) -> ReplicaClassSpaceStats {
        let segments = self.of_class(class);
        ReplicaClassSpaceStats {
            generation: self.generation,
            capacity_bytes: capped(
                sum_over(segments, |segment: MountedSegment| segment.space.figures().capacity_bytes as int),
            ),
            used_bytes: capped(sum_over(segments, |segment: MountedSegment| segment.space.figures().used_bytes as int)),
            available_bytes: capped(
                sum_over(
                    segments,
                    |segment: MountedSegment|
                        segment.space.figures().available_bytes as int,
                ),
            ),
            largest_free_region_bytes: max_over(
                segments,
                |segment: MountedSegment| segment.space.figures().largest_free_region_bytes as int,
            ) as u64,
        }
    }

    /// Whether handles stand for segments, one for one.
    pub open spec fn are_handles(
        self,
        segments: Seq<MountedSegment>,
        handles: Seq<SegmentHandle>,
    ) -> bool {
        &&& segments.len() == handles.len()
        &&& forall|i: int|
            0 <= i < segments.len() ==> (#[trigger] segments[i]).is_handle(
                self.pool_id,
                handles[i],
            )
    }
}

impl PoolView {
    /// The handles of a snapshot have capacity and describe the attachments
    /// they stand for.
    pub proof fn lemma_snapshot(self, handles: Seq<SegmentHandle>)
        requires
            self.wf(),
            self.are_handles(self.accepting(ReplicaClass::Memory), handles),
        ensures
            forall|k: int|
                0 <= k < handles.len() ==> (#[trigger] handles[k]).stats.space.capacity_bytes > 0,
            forall|handle: SegmentHandle| #[trigger]
                handles.contains(handle) ==> match self.mounted_at(
                    handle.spec.identity.id,
                    handle.incarnation,
                ) {
                    Some(i) => *handle.spec == self.segments[i].spec,
                    None => false,
                },
    {
        let accepting = self.accepting(ReplicaClass::Memory);
        lemma_accepting_wf(self, ReplicaClass::Memory);
        assert forall|k: int| 0 <= k < handles.len() implies (
        #[trigger] handles[k]).stats.space.capacity_bytes > 0 by {
            assert(accepting[k].is_handle(self.pool_id, handles[k]));
            assert(accepting[k].wf());
        }
        assert forall|handle: SegmentHandle| #[trigger] handles.contains(handle) implies match self.mounted_at(
            handle.spec.identity.id,
            handle.incarnation,
        ) {
            Some(i) => *handle.spec == self.segments[i].spec,
            None => false,
        } by {
            let k = choose|k: int| 0 <= k < handles.len() && handles[k] == handle;
            assert(accepting[k].is_handle(self.pool_id, handle));
            let keep = |segment: MountedSegment| segment.state == SegmentState::Accepting;
            assert(accepting.contains(accepting[k]));
            self.segments.lemma_filter_contains_rev(keep, accepting[k]);
            let i = choose|i: int| 0 <= i < self.segments.len() && self.segments[i] == accepting[k];
            lemma_position(self, i);
        }
    }
}

/// What one more segment adds to a filtered prefix.
proof fn lemma_filter_step<T>(items: Seq<T>, keep: spec_fn(T) -> bool, i: int)
    requires
        0 <= i < items.len(),
    ensures
        items.take(i + 1).filter(keep) == if keep(items[i]) {
            items.take(i).filter(keep).push(items[i])
        } else {
            items.take(i).filter(keep)
        },
{
    assert(items.take(i + 1).drop_last() =~= items.take(i));
    assert(items.take(i + 1).last() == items[i]);
    reveal(Seq::filter);
}

impl SegmentPool {
    pub fn snapshot(&self) -> (snapshot: PoolSnapshot)
        requires
            self.wf(),
        ensures
            snapshot.generation == self@.generation,
            snapshot.replica_class == ReplicaClass::Memory,
            self@.are_handles(self@.accepting(ReplicaClass::Memory), snapshot.candidates@),
    {
        self.snapshot_for(ReplicaClass::Memory)
    }

    /// The accepting segments of a class, in the order of their ids.
    pub fn snapshot_for(&self, replica_class: ReplicaClass) -> (snapshot: PoolSnapshot)
        requires
            self.wf(),
        ensures
            snapshot.generation == self@.generation,
            snapshot.replica_class == replica_class,
            self@.are_handles(self@.accepting(replica_class), snapshot.candidates@),
    {
        let mut candidates: Vec<SegmentHandle> = Vec::new();
        if replica_class == ReplicaClass::Memory {
            let ghost keep = |segment: MountedSegment| segment.state == SegmentState::Accepting;
            let mut i: usize = 0;
            proof {
                assert(self@.segments.take(0) =~= Seq::empty());
                reveal(Seq::filter);
            }
            while i < self.segments.len()
                invariant
                    self.wf(),
                    i <= self.segments@.len(),
                    keep == (|segment: MountedSegment| segment.state == SegmentState::Accepting),
                    self@.are_handles(self@.segments.take(i as int).filter(keep), candidates@),
                decreases self.segments@.len() - i,
            {
                proof {
                    lemma_filter_step(self@.segments, keep, i as int);
                }
                assert(self@.segments[i as int] == self.segments@[i as int]@);
                if self.segments[i].state.is_accepting() {
                    let handle = self.segments[i].handle(self.pool_id);
                    candidates.push(handle);
                }
                i = i + 1;
            }
            assert(self@.segments.take(i as int) =~= self@.segments);
        }
        PoolSnapshot { generation: self.generation, replica_class, candidates }
    }

    /// Returns the physical capacity behind the current accepting snapshot.
    pub fn capacity_for(&self, replica_class: ReplicaClass) -> (capacity: ReplicaClassCapacity)
        requires
            self.wf(),
        ensures
            capacity == (ReplicaClassCapacity {
                generation: self@.generation,
                replica_class,
                capacity_bytes: self@.capacity_of(replica_class),
            }),
    {
        let snapshot = self.snapshot_for(replica_class);
        let ghost segments = self@.accepting(replica_class);
        let ghost figure = |segment: MountedSegment| segment.space.figures().capacity_bytes as int;
        let mut capacity_bytes: u64 = 0;
        let mut i: usize = 0;
        proof {
            assert(segments.take(0) =~= Seq::empty());
            lemma_accepting_wf(self@, replica_class);
        }
        while i < snapshot.candidates.len()
            invariant
                self@.are_handles(segments, snapshot.candidates@),
                forall|j: int| 0 <= j < segments.len() ==> (#[trigger] segments[j]).wf(),
                figure == (|segment: MountedSegment| segment.space.figures().capacity_bytes as int),
                i <= segments.len(),
                capacity_bytes == capped(sum_over(segments.take(i as int), figure)),
                sum_over(segments.take(i as int), figure) >= 0,
            decreases segments.len() - i,
        {
            let stats = snapshot.candidates[i].stats();
            proof {
                assert(segments[i as int].wf());
                assert(segments[i as int].is_handle(self@.pool_id, snapshot.candidates@[i as int]));
                assert(segments.take(i + 1).drop_last() =~= segments.take(i as int));
                assert(segments.take(i + 1).last() == segments[i as int]);
                assert(figure(segments[i as int]) == stats.space.capacity_bytes);
            }
            capacity_bytes = capacity_bytes.saturating_add(stats.space.capacity_bytes);
            i = i + 1;
        }
        assert(segments.take(i as int) =~= segments);
        ReplicaClassCapacity { generation: snapshot.generation, replica_class, capacity_bytes }
    }

    /// Returns aggregate physical space for all mounted segments in a class.
    ///
    /// Unlike [`Self::capacity_for`], this counts quiesced segments too, so a
    /// placement-state transition cannot create a false memory-pressure spike.
    pub fn space_for(&self, replica_class: ReplicaClass) -> (space: ReplicaClassSpaceStats)
        requires
            self.wf(),
        ensures
            space == self@.space_of(replica_class),
    {
        let mut capacity_bytes: u64 = 0;
        let mut used_bytes: u64 = 0;
        let mut available_bytes: u64 = 0;
        let mut largest_free_region_bytes: u64 = 0;
        let ghost segments = self@.segments;
        let ghost capacity = |segment: MountedSegment| segment.space.figures().capacity_bytes as int;
        let ghost used = |segment: MountedSegment| segment.space.figures().used_bytes as int;
        let ghost available = |segment: MountedSegment|
            segment.space.figures().available_bytes as int;
        let ghost largest = |segment: MountedSegment| segment.space.figures().largest_free_region_bytes as int;
        if replica_class == ReplicaClass::Memory {
            let mut i: usize = 0;
            proof {
                assert(segments.take(0) =~= Seq::empty());
            }
            while i < self.segments.len()
                invariant
                    self.wf(),
                    segments == self@.segments,
                    capacity == (|segment: MountedSegment| segment.space.figures().capacity_bytes as int),
                    used == (|segment: MountedSegment| segment.space.figures().used_bytes as int),
                    available == (|segment: MountedSegment|
                        segment.space.figures().available_bytes as int),
                    largest == (|segment: MountedSegment|
                        segment.space.figures().largest_free_region_bytes as int),
                    i <= segments.len(),
                    capacity_bytes == capped(sum_over(segments.take(i as int), capacity)),
                    used_bytes == capped(sum_over(segments.take(i as int), used)),
                    available_bytes == capped(sum_over(segments.take(i as int), available)),
                    largest_free_region_bytes == max_over(segments.take(i as int), largest),
                    sum_over(segments.take(i as int), capacity) >= 0,
                    sum_over(segments.take(i as int), used) >= 0,
                    sum_over(segments.take(i as int), available) >= 0,
                decreases segments.len() - i,
            {
                let stats = self.segments[i].allocator.stats();
                proof {
                    assert(segments[i as int] == self.segments@[i as int]@);
                    assert(segments.take(i + 1).drop_last() =~= segments.take(i as int));
                    assert(segments.take(i + 1).last() == segments[i as int]);
                    assert(capacity(segments[i as int]) == stats.capacity_bytes);
                    assert(used(segments[i as int]) == stats.used_bytes);
                    assert(available(segments[i as int]) == stats.available_bytes);
                    assert(largest(segments[i as int]) == stats.largest_free_region_bytes);
                }
                capacity_bytes = capacity_bytes.saturating_add(stats.capacity_bytes);
                used_bytes = used_bytes.saturating_add(stats.used_bytes);
                available_bytes = available_bytes.saturating_add(stats.available_bytes);
                if largest_free_region_bytes < stats.largest_free_region_bytes {
                    largest_free_region_bytes = stats.largest_free_region_bytes;
                }
                i = i + 1;
            }
            assert(segments.take(i as int) =~= segments);
        }
        ReplicaClassSpaceStats {
            generation: self.generation,
            capacity_bytes,
            used_bytes,
            available_bytes,
            largest_free_region_bytes,
        }
    }

    /// Change token for callers that cache accepting capacities.
    pub fn direct_capacity_epoch(&self) -> (epoch: u64)
        ensures
            epoch == self@.capacity_epoch,
    {
        self.direct_capacity_epoch
    }

    /// Change token for consumers that retire objects whose segment lifetime
    /// was explicitly invalidated.
    pub fn invalidation_epoch(&self) -> (epoch: u64)
        ensures
            epoch == self@.invalidation_epoch,
    {
        self.invalidation_epoch
    }

    /// The number that tells this pool's handles from those of other pools.
    pub fn pool_id(&self) -> (id: u64)
        ensures
            id == self@.pool_id,
    {
        self.pool_id
    }

    pub fn segment(&self, id: SegmentId) -> (segment: Option<SegmentHandle>)
        requires
            self.wf(),
        ensures
            segment.is_some() == (self@.position(id) is Some),
            segment matches Some(handle) ==> self@.position(id) matches Some(i)
                && self@.segments[i].is_handle(self@.pool_id, handle),
    {
        match self.find(id) {
            Some(i) => {
                assert(self@.segments[i as int] == self.segments@[i as int]@);
                Some(self.segments[i].handle(self.pool_id))
            },
            None => None,
        }
    }

    pub fn stats(&self, id: SegmentId) -> (stats: Option<SegmentStats>)
        requires
            self.wf(),
        ensures
            stats == match self@.position(id) {
                Some(i) => Some(self@.segments[i].stats()),
                None => None,
            },
    {
        match self.segment(id) {
            Some(segment) => Some(segment.stats()),
            None => None,
        }
    }

    pub fn len(&self) -> (length: usize)
        ensures
            length == self@.segments.len(),
    {
        self.segments.len()
    }

    pub fn is_empty(&self) -> (empty: bool)
        ensures
            empty == (self@.segments.len() == 0),
    {
        self.segments.len() == 0
    }

    /// Reserves a range on the segment that a handle stands for.
    pub fn reserve(&mut self, candidate: &SegmentHandle, bytes: u64) -> (reserved: Result<
        Reservation,
        ReserveError,
    >)
        requires
            old(self).wf(),
        ensures
            final(self).wf(),
            reserved.is_ok() == (old(self)@.reserve_fault(*candidate, bytes) is None),
            reserved matches Err(error) ==> {
                &&& old(self)@.reserve_fault(*candidate, bytes) == Some(error)
                &&& final(self)@ == old(self)@.after_refusal(*candidate, bytes)
            },
            reserved matches Ok(reservation) ==> old(self)@.reserved(
                final(self)@,
                *candidate,
                bytes,
                reservation,
            ),
    {
        if candidate.pool_id != self.pool_id {
            return Err(ReserveError::ForeignCandidate);
        }
        if bytes == 0 {
            return Err(ReserveError::ZeroSize);
        }
        let id = candidate.spec.identity.id;
        let i = match self.find_mounted(id, candidate.incarnation) {
            Some(i) => i,
            None => return Err(ReserveError::NotAccepting(id)),
        };
        let ghost before = self@;
        let ghost before_entries = self.segments@;
        assert(before.segments[i as int] == self.segments@[i as int]@);
        assert(before.segments[i as int].wf());
        if !self.segments[i].allocator.may_satisfy(bytes) {
            return Err(ReserveError::OutOfSpace(id));
        }
        if !self.segments[i].state.is_accepting() {
            return Err(ReserveError::NotAccepting(id));
        }
        let entry = &mut self.segments[i];
        let base: u64 = entry.spec.region.base;
        let segment = entry.spec.clone();
        let allocated = entry.allocator.allocate(bytes);
        proof {
            let space = self.segments@[i as int].allocator@;
            self.segments@[i as int].allocator.lemma_wf();
            assert(self@.segments =~= before.with_space(i as int, space).segments);
            assert forall|j: int| 0 <= j < self.segments@.len() implies (
            #[trigger] self.segments@[j]).allocator.wf() by {
                if j != i {
                    assert(self.segments@[j] == before_entries[j]);
                }
            }
            let was = before.segments[i as int].space;
            let size = before.segments[i as int].spec.region.size;
            if allocated is None {
                lemma_missed(was, bytes);
            } else {
                lemma_taken(was, space, allocated.unwrap(), bytes);
                let k = was.fit_from(bytes, 0).unwrap();
                lemma_inside(was, before.config, size, k);
            }
            lemma_space_change_keeps_wf(before, i as int, space);
        }
        match allocated {
            None => Err(ReserveError::OutOfSpace(id)),
            Some(allocation) => {
                let region = MemoryRegion::new(base + allocation.offset, bytes);
                Ok(
                    Reservation {
                        pool_id: self.pool_id,
                        incarnation: candidate.incarnation,
                        allocation,
                        segment,
                        region,
                    },
                )
            },
        }
    }

    /// Reserves a range on a segment that is named by its id.
    pub fn reserve_on(&mut self, id: SegmentId, bytes: u64) -> (reserved: Result<
        Reservation,
        ReserveError,
    >)
        requires
            old(self).wf(),
        ensures
            final(self).wf(),
            bytes == 0 ==> reserved == Err::<Reservation, ReserveError>(ReserveError::ZeroSize)
                && final(self)@ == old(self)@,
            bytes != 0 && old(self)@.position(id) is None ==> reserved == Err::<
                Reservation,
                ReserveError,
            >(ReserveError::NotFound(id)) && final(self)@ == old(self)@,
            bytes != 0 && old(self)@.position(id) is Some ==> exists|handle: SegmentHandle|
                {
                    &&& #[trigger] old(self)@.segments[old(self)@.position(id).unwrap()].is_handle(
                        old(self)@.pool_id,
                        handle,
                    )
                    &&& reserved.is_ok() == (old(self)@.reserve_fault(handle, bytes) is None)
                    &&& reserved matches Err(error) ==> {
                        &&& old(self)@.reserve_fault(handle, bytes) == Some(error)
                        &&& final(self)@ == old(self)@.after_refusal(handle, bytes)
                    }
                    &&& reserved matches Ok(reservation) ==> old(self)@.reserved(
                        final(self)@,
                        handle,
                        bytes,
                        reservation,
                    )
                },
    {
        if bytes == 0 {
            return Err(ReserveError::ZeroSize);
        }
        match self.segment(id) {
            Some(segment) => self.reserve(&segment, bytes),
            None => Err(ReserveError::NotFound(id)),
        }
    }

    /// Gives the range of a reservation back. A reservation whose segment is no
    /// longer mounted has nothing left to give back.
    pub fn release(&mut self, reservation: Reservation)
        requires
            old(self).wf(),
        ensures
            final(self).wf(),
            old(self)@.released(final(self)@, reservation),
    {
        if reservation.pool_id != self.pool_id {
            return ;
        }
        let i = match self.find_mounted(
            reservation.segment.identity.id,
            reservation.incarnation,
        ) {
            Some(i) => i,
            None => return ,
        };
        let ghost before = self@;
        let ghost before_entries = self.segments@;
        assert(before.segments[i as int] == self.segments@[i as int]@);
        let entry = &mut self.segments[i];
        let _ = entry.allocator.release(reservation.allocation);
        proof {
            let space = self.segments@[i as int].allocator@;
            self.segments@[i as int].allocator.lemma_wf();
            assert(before.segments[i as int].wf());
            assert(self@.segments =~= before.with_space(i as int, space).segments);
            assert forall|j: int| 0 <= j < self.segments@.len() implies (
            #[trigger] self.segments@[j]).allocator.wf() by {
                if j != i {
                    assert(self.segments@[j] == before_entries[j]);
                }
            }
            let was = before.segments[i as int].space;
            if was.holds(reservation.allocation) {
                lemma_returned(was, space, reservation.allocation);
            }
            lemma_space_change_keeps_wf(before, i as int, space);
            if space == before.segments[i as int].space {
                assert(self@.segments =~= before.segments);
            }
        }
    }
}

impl PoolView {
    /// Why not all of `ids` from position `from` on may be changed by a client.
    pub open spec fn batch_fault(self, owner: ClientId, ids: Seq<SegmentId>, from: int) -> Option<
        SegmentStateError,
    >
        decreases ids.len() - from,
    {
        if from < 0 || from >= ids.len() {
            None
        } else {
            match self.ownership_fault(owner, ids[from]) {
                Some(fault) => Some(fault),
                None => self.batch_fault(owner, ids, from + 1),
            }
        }
    }

    /// The pool with every one of `ids` accepting.
    pub open spec fn reactivated(self, ids: Seq<SegmentId>) -> PoolView {
        PoolView {
            segments: self.segments.map_values(
                |segment: MountedSegment|
                    if ids.contains(segment.id()) {
                        MountedSegment { state: SegmentState::Accepting, ..segment }
                    } else {
                        segment
                    },
            ),
            generation: if exists|i: int|
                0 <= i < self.segments.len() && ids.contains(
                    (#[trigger] self.segments[i]).id(),
                ) && self.segments[i].state != SegmentState::Accepting {
                next_count(self.generation)
            } else {
                self.generation
            },
            ..self
        }
    }

    /// Why a segment is not removed.
    pub open spec fn removal_fault(self, owner: ClientId, id: SegmentId) -> Option<
        SegmentStateError,
    > {
        match self.ownership_fault(owner, id) {
            Some(fault) => Some(fault),
            None => if self.segments[self.position(id).unwrap()].state == SegmentState::Accepting {
                Some(SegmentStateError::StillAccepting(id))
            } else {
                None
            },
        }
    }

    /// The pool without the segment at one position.
    pub open spec fn without(self, i: int) -> PoolView {
        PoolView {
            segments: self.segments.remove(i),
            capacity_epoch: next_count(self.capacity_epoch),
            invalidation_epoch: next_count(self.invalidation_epoch),
            ..self
        }
    }

    /// The pool after every segment of `owners` was invalidated.
    pub open spec fn invalidated(self, owners: Seq<ClientId>) -> PoolView {
        let kept = self.without_owners(owners);
        if kept.len() == self.segments.len() {
            self
        } else {
            PoolView {
                segments: kept,
                generation: if exists|i: int|
                    0 <= i < self.segments.len() && Self::owned_by(
                        owners,
                        #[trigger] self.segments[i],
                    ) && self.segments[i].state == SegmentState::Accepting {
                    next_count(self.generation)
                } else {
                    self.generation
                },
                capacity_epoch: next_count(self.capacity_epoch),
                invalidation_epoch: next_count(self.invalidation_epoch),
                ..self
            }
        }
    }
}

/// Whether a list of clients names a client.
fn names_client(owners: &[ClientId], owner: ClientId) -> (named: bool)
    ensures
        named == owners@.contains(owner),
{
    let mut i: usize = 0;
    while i < owners.len()
        invariant
            i <= owners@.len(),
            forall|j: int| 0 <= j < i ==> owners@[j] != owner,
        decreases owners@.len() - i,
    {
        if owners[i] == owner {
            return true;
        }
        i = i + 1;
    }
    false
}

impl SegmentPool {
    /// The segment, if the client owns it.
    fn find_owned(&self, owner: ClientId, id: SegmentId) -> (found: Result<
        usize,
        SegmentStateError,
    >)
        requires
            self.wf(),
        ensures
            match found {
                Ok(i) => {
                    &&& i < self@.segments.len()
                    &&& self@.position(id) == Some(i as int)
                    &&& self@.segments[i as int].id() == id
                    &&& self@.ownership_fault(owner, id) is None
                },
                Err(error) => self@.ownership_fault(owner, id) == Some(error),
            },
    {
        match self.find(id) {
            None => Err(SegmentStateError::NotFound(id)),
            Some(i) => {
                let expected = self.segments[i].spec.identity.owner;
                assert(self@.segments[i as int] == self.segments@[i as int]@);
                if expected != owner {
                    Err(SegmentStateError::OwnerMismatch { segment: id, expected, actual: owner })
                } else {
                    Ok(i)
                }
            },
        }
    }

    /// Puts the segment at one position into another state.
    fn set_state(&mut self, i: usize, state: SegmentState)
        requires
            old(self).wf(),
            i < old(self)@.segments.len(),
            state != SegmentState::Removed,
        ensures
            final(self).wf(),
            final(self)@ == old(self)@.with_state(i as int, state),
    {
        let ghost before = self@;
        let ghost before_entries = self.segments@;
        assert(before.segments[i as int] == self.segments@[i as int]@);
        if self.segments[i].state.is_accepting() != state.is_accepting() {
            self.generation = count_up(self.generation);
        }
        let entry = &mut self.segments[i];
        entry.state = state;
        proof {
            assert(self@.segments =~= before.with_state(i as int, state).segments);
            assert forall|j: int| 0 <= j < self.segments@.len() implies (
            #[trigger] self.segments@[j]).allocator.wf() by {
                assert(before_entries[j].allocator.wf());
            }
            lemma_state_change_keeps_wf(before, i as int, state);
        }
    }

    /// Hides a segment from placement.
    pub fn quiesce(&mut self, owner: ClientId, id: SegmentId) -> (done: Result<
        (),
        SegmentStateError,
    >)
        requires
            old(self).wf(),
        ensures
            final(self).wf(),
            done == match old(self)@.ownership_fault(owner, id) {
                Some(fault) => Err::<(), SegmentStateError>(fault),
                None => Ok(()),
            },
            final(self)@ == old(self)@.after_quiesce(owner, id),
    {
        let i = match self.find_owned(owner, id) {
            Ok(i) => i,
            Err(error) => return Err(error),
        };
        self.set_state(i, SegmentState::Quiesced);
        self.direct_capacity_epoch = count_up(self.direct_capacity_epoch);
        Ok(())
    }

    /// Publishes a quiesced segment to placement again.
    pub fn reactivate(&mut self, owner: ClientId, id: SegmentId) -> (done: Result<
        (),
        SegmentStateError,
    >)
        requires
            old(self).wf(),
        ensures
            final(self).wf(),
            done == match old(self)@.ownership_fault(owner, id) {
                Some(fault) => Err::<(), SegmentStateError>(fault),
                None => Ok(()),
            },
            final(self)@ == old(self)@.after_reactivate(owner, id),
    {
        let i = match self.find_owned(owner, id) {
            Ok(i) => i,
            Err(error) => return Err(error),
        };
        self.set_state(i, SegmentState::Accepting);
        self.direct_capacity_epoch = count_up(self.direct_capacity_epoch);
        Ok(())
    }

    /// Validates ownership for the whole batch before publishing any segment.
    pub fn reactivate_many(&mut self, owner: ClientId, ids: &[SegmentId]) -> (done: Result<
        (),
        SegmentStateError,
    >)
        requires
            old(self).wf(),
        ensures
            final(self).wf(),
            ids@.len() == 0 ==> done is Ok && final(self)@ == old(self)@,
            ids@.len() > 0 ==> match old(self)@.batch_fault(owner, ids@, 0) {
                Some(fault) => done == Err::<(), SegmentStateError>(fault) && final(self)@ == old(
                    self,
                )@,
                None => done is Ok && final(self)@ == old(self)@.reactivated(
                    ids@,
                ).capacity_announced(),
            },
    {
        if ids.len() == 0 {
            return Ok(());
        }
        let mut n: usize = 0;
        while n < ids.len()
            invariant
                self.wf(),
                n <= ids@.len(),
                self@.batch_fault(owner, ids@, 0) == self@.batch_fault(owner, ids@, n as int),
            decreases ids@.len() - n,
        {
            if let Err(error) = self.find_owned(owner, ids[n]) {
                return Err(error);
            }
            n = n + 1;
        }
        let ghost before = self@;
        let generation: u64 = self.generation;
        let mut changed = false;
        let mut i: usize = 0;
        let ghost goal = before.reactivated(ids@);
        while i < self.segments.len()
            invariant
                self.wf(),
                before.wf(),
                goal == before.reactivated(ids@),
                self@.segments.len() == before.segments.len(),
                i <= before.segments.len(),
                self@ == (PoolView {
                    segments: self@.segments,
                    generation: self@.generation,
                    ..before
                }),
                generation == before.generation,
                forall|j: int| 0 <= j < i ==> #[trigger] self@.segments[j] == goal.segments[j],
                forall|j: int|
                    i <= j < before.segments.len() ==> #[trigger] self@.segments[j]
                        == before.segments[j],
                changed == exists|j: int|
                    0 <= j < i && ids@.contains((#[trigger] before.segments[j]).id())
                        && before.segments[j].state != SegmentState::Accepting,
            decreases before.segments.len() - i,
        {
            let id = self.segments[i].spec.identity.id;
            assert(self.segments@[i as int]@ == self@.segments[i as int]);
            assert(self@.segments[i as int] == before.segments[i as int]);
            let ghost known = changed;
            if names_segment(ids, id) {
                if !self.segments[i].state.is_accepting() {
                    changed = true;
                }
                self.set_state(i, SegmentState::Accepting);
            }
            proof {
                assert(changed == (known || (ids@.contains(before.segments[i as int].id())
                    && before.segments[i as int].state != SegmentState::Accepting)));
            }
            i = i + 1;
        }
        assert(self@.segments =~= goal.segments);
        if changed {
            self.generation = count_up(generation);
        } else {
            self.generation = generation;
        }
        self.direct_capacity_epoch = count_up(self.direct_capacity_epoch);
        Ok(())
    }

    /// Unmounts a quiesced segment. Its outstanding reservations are no longer
    /// live.
    pub fn remove(&mut self, owner: ClientId, id: SegmentId) -> (done: Result<
        (),
        SegmentStateError,
    >)
        requires
            old(self).wf(),
        ensures
            final(self).wf(),
            done == match old(self)@.removal_fault(owner, id) {
                Some(fault) => Err::<(), SegmentStateError>(fault),
                None => Ok(()),
            },
            final(self)@ == old(self)@.after_remove(owner, id),
    {
        let i = match self.find_owned(owner, id) {
            Ok(i) => i,
            Err(error) => return Err(error),
        };
        assert(self.segments@[i as int]@ == self@.segments[i as int]);
        if self.segments[i].state.is_accepting() {
            return Err(SegmentStateError::StillAccepting(id));
        }
        let ghost before = self@;
        let ghost before_entries = self.segments@;
        let _ = self.segments.remove(i);
        self.direct_capacity_epoch = count_up(self.direct_capacity_epoch);
        self.invalidation_epoch = count_up(self.invalidation_epoch);
        proof {
            assert(self@.segments =~= before.segments.remove(i as int));
            lemma_subsequence_keeps_wf(before, self@);
            assert forall|j: int| 0 <= j < self.segments@.len() implies (
            #[trigger] self.segments@[j]).allocator.wf() by {
                let k = if j < i { j } else { j + 1 };
                assert(before_entries[k].allocator.wf());
            }
        }
        Ok(())
    }

    /// Logically invalidates every segment owned by a fenced client and removes
    /// them from placement and lookup. Outstanding reservations become unusable
    /// immediately. Repeating cleanup for an owner with no mounted segments is a
    /// no-op.
    pub fn invalidate_owner(&mut self, owner: ClientId) -> (invalidated: usize)
        requires
            old(self).wf(),
        ensures
            final(self).wf(),
            final(self)@ == old(self)@.invalidated(seq![owner]),
            invalidated == old(self)@.segments.len() - old(self)@.without_owners(seq![owner]).len(),
    {
        let owners: [ClientId; 1] = [owner];
        assert(owners@ =~= seq![owner]);
        self.invalidate_owners(&owners)
    }

    /// Invalidates many owners at once and publishes one new placement
    /// snapshot. Duplicate and already-cleaned owners are ignored.
    pub fn invalidate_owners(&mut self, owners: &[ClientId]) -> (invalidated: usize)
        requires
            old(self).wf(),
        ensures
            final(self).wf(),
            final(self)@ == old(self)@.invalidated(owners@),
            invalidated == old(self)@.segments.len() - old(self)@.without_owners(owners@).len(),
    {
        let ghost before = self@;
        let ghost all = before.segments;
        let ghost keep = |segment: MountedSegment| !PoolView::owned_by(owners@, segment);
        let mut invalidated: usize = 0;
        let mut accepting_lost = false;
        let mut i: usize = self.segments.len();
        proof {
            assert(all.skip(all.len() as int) =~= Seq::empty());
            reveal(Seq::filter);
            assert(all.skip(all.len() as int).filter(keep) =~= Seq::empty());
            assert(all.take(all.len() as int) + Seq::empty() =~= all);
        }
        while i > 0
            invariant
                keep == (|segment: MountedSegment| !PoolView::owned_by(owners@, segment)),
                all == before.segments,
                before.wf(),
                i <= all.len() <= usize::MAX,
                self@ == (PoolView { segments: self@.segments, ..before }),
                self@.segments == all.take(i as int) + all.skip(i as int).filter(keep),
                self@.segments.len() + invalidated == all.len(),
                forall|j: int|
                    0 <= j < self.segments@.len() ==> (#[trigger] self.segments@[j]).allocator.wf(),
                accepting_lost == exists|j: int|
                    i <= j < all.len() && PoolView::owned_by(owners@, #[trigger] all[j])
                        && all[j].state == SegmentState::Accepting,
            decreases i,
        {
            let ghost previous = self@.segments;
            let ghost previous_entries = self.segments@;
            let ghost known = accepting_lost;
            i = i - 1;
            proof {
                assert(previous[i as int] == all[i as int]);
                assert(all.skip(i as int) =~= seq![all[i as int]] + all.skip(i + 1));
                all.skip(i + 1).lemma_filter_prepend(all[i as int], keep);
                assert(self.segments@[i as int]@ == all[i as int]);
            }
            let owner = self.segments[i].spec.identity.owner;
            if names_client(owners, owner) {
                if self.segments[i].state.is_accepting() {
                    accepting_lost = true;
                }
                let _ = self.segments.remove(i);
                invalidated = invalidated + 1;
                proof {
                    assert(self@.segments =~= previous.remove(i as int));
                    assert(self@.segments =~= all.take(i as int) + all.skip(i as int).filter(keep));
                    assert forall|j: int| 0 <= j < self.segments@.len() implies (
                    #[trigger] self.segments@[j]).allocator.wf() by {
                        let k = if j < i { j } else { j + 1 };
                        assert(previous_entries[k].allocator.wf());
                    }
                }
            } else {
                assert(self@.segments =~= all.take(i as int) + all.skip(i as int).filter(keep));
            }
            proof {
                assert(accepting_lost == (known || (PoolView::owned_by(owners@, all[i as int])
                    && all[i as int].state == SegmentState::Accepting)));
            }
        }
        proof {
            assert(all.skip(0) =~= all);
            assert(all.take(0) + all.filter(keep) =~= all.filter(keep));
            assert(self@.segments == before.without_owners(owners@));
            lemma_filter_keeps_order(before, owners@);
            if invalidated == 0 {
                lemma_filter_all(all, keep);
            }
        }
        if invalidated != 0 {
            if accepting_lost {
                self.generation = count_up(self.generation);
            }
            self.direct_capacity_epoch = count_up(self.direct_capacity_epoch);
            self.invalidation_epoch = count_up(self.invalidation_epoch);
        }
        invalidated
    }

    /// Gives the ranges of many reservations back.
    pub fn release_batch(&mut self, reservations: Vec<Reservation>)
        requires
            old(self).wf(),
        ensures
            final(self).wf(),
            old(self)@.released_all(final(self)@, reservations@),
    {
        let ghost all = reservations@;
        let ghost before = self@;
        let mut rest = reservations;
        while rest.len() > 0
            invariant
                self.wf(),
                forall|after: PoolView| #[trigger]
                    self@.released_all(after, rest@) ==> before.released_all(after, all),
            decreases rest@.len(),
        {
            let ghost now = self@;
            let ghost had = rest@;
            if let Some(reservation) = rest.pop() {
                self.release(reservation);
                proof {
                    assert(rest@ == had.drop_last());
                    assert forall|after: PoolView| #[trigger]
                        self@.released_all(after, rest@) implies before.released_all(
                        after,
                        all,
                    ) by {
                        assert(now.released(self@, had.last()));
                        assert(now.released_all(after, had));
                    }
                }
            }
        }
        assert(self@.released_all(self@, rest@));
    }
}

impl PoolView {
    /// Whether `after` is this pool with the ranges of all reservations given
    /// back, the last one first.
    pub open spec fn released_all(self, after: PoolView, reservations: Seq<Reservation>) -> bool
        decreases reservations.len(),
    {
        if reservations.len() == 0 {
            after == self
        } else {
            exists|middle: PoolView| #[trigger]
                self.released(middle, reservations.last()) && middle.released_all(
                    after,
                    reservations.drop_last(),
                )
        }
    }
}

/// Whether a list of segments names a segment.
fn names_segment(ids: &[SegmentId], id: SegmentId) -> (named: bool)
    ensures
        named == ids@.contains(id),
{
    let mut i: usize = 0;
    while i < ids.len()
        invariant
            i <= ids@.len(),
            forall|j: int| 0 <= j < i ==> ids@[j] != id,
        decreases ids@.len() - i,
    {
        if ids[i] == id {
            return true;
        }
        i = i + 1;
    }
    false
}

/// Where a filter keeps as many as there were, it kept all.
pub proof fn lemma_filter_all<T>(items: Seq<T>, keep: spec_fn(T) -> bool)
    requires
        items.filter(keep).len() == items.len(),
    ensures
        items.filter(keep) == items,
    decreases items.len(),
{
    reveal(Seq::filter);
    if items.len() > 0 {
        items.drop_last().lemma_filter_len(keep);
        lemma_filter_all(items.drop_last(), keep);
        assert(items.drop_last().push(items.last()) =~= items);
    }
}

/// Whether one sequence is another with some items left out.
spec fn picks<T>(some: Seq<T>, all: Seq<T>, from: Seq<int>) -> bool {
    &&& from.len() == some.len()
    &&& forall|i: int|
        0 <= i < some.len() ==> 0 <= #[trigger] from[i] < all.len() && some[i] == all[from[i]]
    &&& forall|i: int, j: int| 0 <= i < j < some.len() ==> #[trigger] from[i] < #[trigger] from[j]
}

/// A filter only leaves items out.
proof fn lemma_filter_picks<T>(items: Seq<T>, keep: spec_fn(T) -> bool) -> (from: Seq<int>)
    ensures
        picks(items.filter(keep), items, from),
    decreases items.len(),
{
    reveal(Seq::filter);
    if items.len() == 0 {
        Seq::empty()
    } else {
        let rest = lemma_filter_picks(items.drop_last(), keep);
        if keep(items.last()) {
            let from = rest.push(items.len() - 1);
            assert forall|i: int| 0 <= i < items.filter(keep).len() implies 0
                <= #[trigger] from[i] < items.len() && items.filter(keep)[i] == items[from[i]] by {
                if i < rest.len() {
                    assert(rest[i] < items.drop_last().len());
                }
            }
            from
        } else {
            rest
        }
    }
}

/// Leaving segments out leaves the pool in order.
proof fn lemma_picks_keep_wf(pool: PoolView, after: PoolView, from: Seq<int>)
    requires
        pool.wf(),
        picks(after.segments, pool.segments, from),
        after.config == pool.config,
        after.next_incarnation == pool.next_incarnation,
    ensures
        after.wf(),
{
    assert forall|j: int| 0 <= j < after.segments.len() implies {
        &&& (#[trigger] after.segments[j]).wf()
        &&& after.segments[j].incarnation < after.next_incarnation
        &&& after.segments[j].space.fits_layout(after.config, after.segments[j].spec.region.size)
    } by {
        assert(0 <= from[j] < pool.segments.len());
        assert(pool.segments[from[j]].wf());
    }
    assert forall|j: int, k: int| 0 <= j < k < after.segments.len() implies id_before(
        (#[trigger] after.segments[j]).id(),
        (#[trigger] after.segments[k]).id(),
    ) && after.segments[j].incarnation != after.segments[k].incarnation && !ranges_clash(
        after.segments[j].spec@,
        after.segments[k].spec@,
    ) by {
        assert(from[j] < from[k]);
        assert(0 <= from[j] && from[k] < pool.segments.len());
        assert(id_before(pool.segments[from[j]].id(), pool.segments[from[k]].id()));
    }
}

/// Taking one segment out leaves the pool in order.
proof fn lemma_subsequence_keeps_wf(pool: PoolView, after: PoolView)
    requires
        pool.wf(),
        exists|i: int|
            0 <= i < pool.segments.len() && after.segments == #[trigger] pool.segments.remove(i),
        after.config == pool.config,
        after.next_incarnation == pool.next_incarnation,
    ensures
        after.wf(),
{
    let i = choose|i: int|
        0 <= i < pool.segments.len() && after.segments == #[trigger] pool.segments.remove(i);
    let from = Seq::new(after.segments.len(), |j: int| if j < i { j } else { j + 1 });
    assert(picks(after.segments, pool.segments, from));
    lemma_picks_keep_wf(pool, after, from);
}

/// Dropping the segments of some owners leaves the pool in order.
proof fn lemma_filter_keeps_order(pool: PoolView, owners: Seq<ClientId>)
    requires
        pool.wf(),
    ensures
        pool.invalidated(owners).wf(),
        (PoolView { segments: pool.without_owners(owners), ..pool }).wf(),
{
    let keep = |segment: MountedSegment| !PoolView::owned_by(owners, segment);
    let from = lemma_filter_picks(pool.segments, keep);
    let kept = PoolView { segments: pool.without_owners(owners), ..pool };
    lemma_picks_keep_wf(pool, kept, from);
    if pool.without_owners(owners).len() != pool.segments.len() {
        lemma_picks_keep_wf(pool, pool.invalidated(owners), from);
    }
}

/// Another state of one segment leaves the pool in order.
proof fn lemma_state_change_keeps_wf(pool: PoolView, i: int, state: SegmentState)
    requires
        pool.wf(),
        0 <= i < pool.segments.len(),
        state != SegmentState::Removed,
    ensures
        pool.with_state(i, state).wf(),
{
    let after = pool.with_state(i, state);
    assert(pool.segments[i].wf());
    assert forall|j: int| 0 <= j < after.segments.len() implies {
        &&& (#[trigger] after.segments[j]).wf()
        &&& after.segments[j].incarnation < after.next_incarnation
    } by {
        assert(pool.segments[j].wf());
    }
    assert forall|j: int, k: int| 0 <= j < k < after.segments.len() implies id_before(
        (#[trigger] after.segments[j]).id(),
        (#[trigger] after.segments[k]).id(),
    ) && after.segments[j].incarnation != after.segments[k].incarnation && !ranges_clash(
        after.segments[j].spec@,
        after.segments[k].spec@,
    ) by {
        assert(id_before(pool.segments[j].id(), pool.segments[k].id()));
    }
}

/// Other ranges in one segment leave the pool in order.
proof fn lemma_space_change_keeps_wf(pool: PoolView, i: int, space: SpaceView)
    requires
        pool.wf(),
        0 <= i < pool.segments.len(),
        space.wf(),
        pool.segments[i].space.same_places(space),
    ensures
        pool.with_space(i, space).wf(),
{
    let after = pool.with_space(i, space);
    assert(pool.segments[i].wf());
    lemma_same_layout(pool.segments[i].space, space);
    assert forall|j: int| 0 <= j < after.segments.len() implies {
        &&& (#[trigger] after.segments[j]).wf()
        &&& after.segments[j].incarnation < after.next_incarnation
        &&& after.segments[j].space.fits_layout(after.config, after.segments[j].spec.region.size)
    } by {
        assert(pool.segments[j].wf());
    }
    assert forall|j: int, k: int| 0 <= j < k < after.segments.len() implies id_before(
        (#[trigger] after.segments[j]).id(),
        (#[trigger] after.segments[k]).id(),
    ) && after.segments[j].incarnation != after.segments[k].incarnation && !ranges_clash(
        after.segments[j].spec@,
        after.segments[k].spec@,
    ) by {
        assert(id_before(pool.segments[j].id(), pool.segments[k].id()));
    }
}

/// Every segment that placement sees is in order.
proof fn lemma_accepting_wf(pool: PoolView, class: ReplicaClass)
    requires
        pool.wf(),
    ensures
        forall|i: int|
            0 <= i < pool.accepting(class).len() ==> (#[trigger] pool.accepting(class)[i]).wf(),
{
    if class == ReplicaClass::Memory {
        let keep = |segment: MountedSegment| segment.state == SegmentState::Accepting;
        assert forall|i: int| 0 <= i < pool.accepting(class).len() implies (
        #[trigger] pool.accepting(class)[i]).wf() by {
            let segment = pool.accepting(class)[i];
            assert(pool.accepting(class).contains(segment));
            pool.segments.lemma_filter_contains_rev(keep, segment);
        }
    }
}

/// Where no segment clashes, none from `from` on does.
proof fn lemma_no_clash(pool: PoolView, spec: SegmentSpecView, from: int, i: int)
    requires
        0 <= from <= i < pool.segments.len(),
        pool.first_clash(spec, from) is None,
    ensures
        !ranges_clash(spec, pool.segments[i].spec@),
        !ranges_clash(pool.segments[i].spec@, spec),
    decreases i - from,
{
    if from < i {
        lemma_no_clash(pool, spec, from + 1, i);
    }
}

} // verus!
