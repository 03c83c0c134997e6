//! What backs a segment: a range that is allocated from, or a capacity that
//! offloads are admitted to.

use super::descriptor::MemoryRegion;
use super::error::{LocalSsdError, ReserveError};
use super::identity::{ClientId, SegmentId, SegmentIdentity};
use super::lifetime::SegmentLifetime;
use super::local_ssd::{
    AdmissionFailure, LocalSsdAllocation, LocalSsdCapacity, LocalSsdMount, LocalSsdStats,
    OffloadPermit,
};
use super::offset_allocator::OffsetAllocationHandle;
use super::shards::{space_of, ShardedByteAllocator};
use super::spec::ReplicaClass;
use super::stats::SegmentSpaceStats;
use super::transport::TransportEndpoint;
use crate::text::same_text;
use vstd::prelude::*;

verus! {

/// The name of an arena that segments share.
#[derive(Clone, Debug, Eq, Hash, PartialEq)]
pub struct CxlArenaId {
    pub text: String,
}

/// An arena that segments share.
#[derive(Clone, Debug, Eq, PartialEq)]
pub struct CxlArenaSpec {
    pub id: CxlArenaId,
    pub capacity_bytes: u64,
}

/// What a segment is made of.
pub enum SegmentConfiguration {
    Memory { region: MemoryRegion, transport: TransportEndpoint },
    Nof { region: MemoryRegion, transport: TransportEndpoint },
    LocalSsd { initial_offload_enabled: bool },
    Cxl { region: MemoryRegion, arena: CxlArenaSpec },
}

/// A segment and what it is made of.
pub struct ResourceSpec {
    pub identity: SegmentIdentity,
    pub configuration: SegmentConfiguration,
}

/// Why a resource cannot be mounted beside those that are.
#[derive(Clone, Debug, Eq, PartialEq)]
pub enum ResourceConflict {
    /// The segment's address range leaves the address space.
    AddressOverflow,
    /// The range overlaps an existing segment in the same address space.
    OverlappingAddressRange { existing: SegmentId },
    /// The endpoint is attached already.
    DuplicateNofEndpoint { existing: SegmentId },
    /// The client has such a segment already.
    DuplicateLocalSsdOwner { existing: SegmentId },
    /// The arena is registered with another capacity.
    ConflictingCxlArena { arena: CxlArenaId },
}

impl ResourceSpec {
    /// Whether the addresses of a memory segment can be counted.
    pub open spec fn addresses_fit(self) -> bool {
        self.configuration matches SegmentConfiguration::Memory { region, transport }
            ==> region.base + region.size <= u64::MAX
    }

    /// Whether two segments get in each other's way: memory of one client over
    /// one transport that overlaps, one endpoint twice, or two disks of one
    /// client.
    pub open spec fn clashes(self, other: ResourceSpec) -> bool {
        match (self.configuration, other.configuration) {
            (
                SegmentConfiguration::Memory { region, transport },
                SegmentConfiguration::Memory { region: taken, transport: used },
            ) => {
                &&& other.identity.owner == self.identity.owner
                &&& used@ == transport@
                &&& region.base < taken.base + taken.size
                &&& taken.base < region.base + region.size
            },
            (
                SegmentConfiguration::Nof { region, transport },
                SegmentConfiguration::Nof { region: taken, transport: used },
            ) => used@ == transport@,
            (
                SegmentConfiguration::LocalSsd { initial_offload_enabled },
                SegmentConfiguration::LocalSsd { initial_offload_enabled: enabled },
            ) => other.identity.owner == self.identity.owner,
            _ => false,
        }
    }

    /// The first segment that gets in this one's way.
    pub open spec fn first_clash(self, existing: Seq<ResourceSpec>, from: int) -> Option<SegmentId>
        decreases existing.len() - from,
    {
        if from < 0 || from >= existing.len() {
            None
        } else if self.clashes(existing[from]) {
            Some(existing[from].identity.id)
        } else {
            self.first_clash(existing, from + 1)
        }
    }

    /// Why the segment cannot be mounted beside those that are.
    pub open spec fn conflict(self, existing: Seq<ResourceSpec>) -> Option<ResourceConflict> {
        if !self.addresses_fit() {
            Some(ResourceConflict::AddressOverflow)
        } else {
            match self.first_clash(existing, 0) {
                None => None,
                Some(existing) => Some(
                    match self.configuration {
                        SegmentConfiguration::Memory {
                            region,
                            transport,
                        } => ResourceConflict::OverlappingAddressRange { existing },
                        SegmentConfiguration::Nof {
                            region,
                            transport,
                        } => ResourceConflict::DuplicateNofEndpoint { existing },
                        _ => ResourceConflict::DuplicateLocalSsdOwner { existing },
                    },
                ),
            }
        }
    }

    fn clashes_with(&self, other: &ResourceSpec) -> (clash: bool)
        requires
            self.addresses_fit(),
            other.addresses_fit(),
        ensures
            clash == self.clashes(*other),
    {
        match (&self.configuration, &other.configuration) {
            (
                SegmentConfiguration::Memory { region, transport },
                SegmentConfiguration::Memory { region: taken, transport: used },
            ) => {
                let end: u64 = region.base + region.size;
                let taken_end: u64 = taken.base + taken.size;
                other.identity.owner == self.identity.owner && used.same_as(transport)
                    && region.base < taken_end && taken.base < end
            },
            (
                SegmentConfiguration::Nof { region: _, transport },
                SegmentConfiguration::Nof { region: _, transport: used },
            ) => used.same_as(transport),
            (
                SegmentConfiguration::LocalSsd { initial_offload_enabled: _ },
                SegmentConfiguration::LocalSsd { initial_offload_enabled: _ },
            ) => other.identity.owner == self.identity.owner,
            _ => false,
        }
    }
}

/// Checks that a segment can be mounted beside those that are.
pub fn validate_resource_conflicts(spec: &ResourceSpec, existing: &Vec<ResourceSpec>) -> (checked: Result<
    (),
    ResourceConflict,
>)
    requires
        forall|i: int| 0 <= i < existing@.len() ==> (#[trigger] existing@[i]).addresses_fit(),
    ensures
        match spec.conflict(existing@) {
            Some(conflict) => checked == Err::<(), ResourceConflict>(conflict),
            None => checked is Ok,
        },
{
    if let SegmentConfiguration::Memory { region, transport: _ } = &spec.configuration {
        if region.end().is_none() {
            return Err(ResourceConflict::AddressOverflow);
        }
    }
    let mut i: usize = 0;
    while i < existing.len()
        invariant
            i <= existing@.len(),
            spec.addresses_fit(),
            forall|j: int| 0 <= j < existing@.len() ==> (#[trigger] existing@[j]).addresses_fit(),
            spec.first_clash(existing@, 0) == spec.first_clash(existing@, i as int),
        decreases existing@.len() - i,
    {
        assert(existing@[i as int].addresses_fit());
        if spec.clashes_with(&existing[i]) {
            let existing = existing[i].identity.id;
            return Err(
                match &spec.configuration {
                    SegmentConfiguration::Memory {
                        region: _,
                        transport: _,
                    } => ResourceConflict::OverlappingAddressRange { existing },
                    SegmentConfiguration::Nof {
                        region: _,
                        transport: _,
                    } => ResourceConflict::DuplicateNofEndpoint { existing },
                    _ => ResourceConflict::DuplicateLocalSsdOwner { existing },
                },
            );
        }
        i = i + 1;
    }
    Ok(())
}

/// How many segments share an arena.
pub struct CxlArenaUse {
    pub spec: CxlArenaSpec,
    pub attached_segments: usize,
}

/// The arenas that segments share.
pub struct ResourceRegistry {
    arenas: Vec<CxlArenaUse>,
}

/// The capacity of an arena and how many segments share it.
pub struct ArenaView {
    pub capacity_bytes: u64,
    pub attached_segments: nat,
}

/// The arenas of a table by their names.
pub open spec fn arenas_by_name(arenas: Seq<CxlArenaUse>) -> Map<Seq<char>, ArenaView>
    decreases arenas.len(),
{
    if arenas.len() == 0 {
        Map::empty()
    } else {
        arenas_by_name(arenas.drop_last()).insert(
            arenas.last().spec.id.text@,
            ArenaView {
                capacity_bytes: arenas.last().spec.capacity_bytes,
                attached_segments: arenas.last().attached_segments as nat,
            },
        )
    }
}

/// Whether no two arenas have one name.
pub open spec fn names_differ(arenas: Seq<CxlArenaUse>) -> bool {
    forall|i: int, j: int|
        0 <= i < j < arenas.len() ==> (#[trigger] arenas[i]).spec.id.text@ != (
        #[trigger] arenas[j]).spec.id.text@
}

impl View for ResourceRegistry {
    type V = Map<Seq<char>, ArenaView>;

    closed spec fn view(&self) -> Map<Seq<char>, ArenaView> {
        arenas_by_name(self.arenas@)
    }
}

/// What a table says of an arena.
proof fn lemma_arenas(arenas: Seq<CxlArenaUse>)
    requires
        names_differ(arenas),
    ensures
        forall|i: int|
            0 <= i < arenas.len() ==> arenas_by_name(arenas).contains_key(
                (#[trigger] arenas[i]).spec.id.text@,
            ) && arenas_by_name(arenas)[arenas[i].spec.id.text@] == (ArenaView {
                capacity_bytes: arenas[i].spec.capacity_bytes,
                attached_segments: arenas[i].attached_segments as nat,
            }),
        forall|name: Seq<char>| #[trigger]
            arenas_by_name(arenas).contains_key(name) ==> exists|i: int|
                0 <= i < arenas.len() && (#[trigger] arenas[i]).spec.id.text@ == name,
    decreases arenas.len(),
{
    if arenas.len() > 0 {
        let rest = arenas.drop_last();
        assert forall|i: int, j: int| 0 <= i < j < rest.len() implies (
        #[trigger] rest[i]).spec.id.text@ != (#[trigger] rest[j]).spec.id.text@ by {
            assert(rest[i] == arenas[i] && rest[j] == arenas[j]);
        }
        lemma_arenas(rest);
        assert forall|i: int| 0 <= i < arenas.len() implies arenas_by_name(arenas).contains_key(
            (#[trigger] arenas[i]).spec.id.text@,
        ) && arenas_by_name(arenas)[arenas[i].spec.id.text@] == (ArenaView {
            capacity_bytes: arenas[i].spec.capacity_bytes,
            attached_segments: arenas[i].attached_segments as nat,
        }) by {
            if i < rest.len() {
                assert(rest[i] == arenas[i]);
                assert(arenas[i].spec.id.text@ != arenas[rest.len() as int].spec.id.text@);
            }
        }
        assert forall|name: Seq<char>| #[trigger]
            arenas_by_name(arenas).contains_key(name) implies exists|i: int|
            0 <= i < arenas.len() && (#[trigger] arenas[i]).spec.id.text@ == name by {
            if arenas_by_name(rest).contains_key(name) {
                let i = choose|i: int|
                    0 <= i < rest.len() && (#[trigger] rest[i]).spec.id.text@ == name;
                assert(arenas[i] == rest[i]);
            } else {
                assert(arenas[rest.len() as int].spec.id.text@ == name);
            }
        }
    }
}

impl ResourceRegistry {
    pub closed spec fn wf(&self) -> bool {
        names_differ(self.arenas@)
    }

    pub fn new() -> (registry: Self)
        ensures
            registry.wf(),
            registry@ == Map::<Seq<char>, ArenaView>::empty(),
    {
        Self { arenas: Vec::new() }
    }

    fn find(&self, name: &str) -> (found: Option<usize>)
        requires
            self.wf(),
        ensures
            match found {
                Some(i) => i < self.arenas@.len() && self.arenas@[i as int].spec.id.text@ == name@
                    && self@.contains_key(name@) && self@[name@] == (ArenaView {
                    capacity_bytes: self.arenas@[i as int].spec.capacity_bytes,
                    attached_segments: self.arenas@[i as int].attached_segments as nat,
                }),
                None => !self@.contains_key(name@),
            },
    {
        proof {
            lemma_arenas(self.arenas@);
        }
        let mut i: usize = 0;
        while i < self.arenas.len()
            invariant
                i <= self.arenas@.len(),
                self.wf(),
                forall|j: int| 0 <= j < i ==> (#[trigger] self.arenas@[j]).spec.id.text@ != name@,
            decreases self.arenas@.len() - i,
        {
            proof {
                lemma_arenas(self.arenas@);
            }
            if same_text(self.arenas[i].spec.id.text.as_str(), name) {
                assert(self.arenas@[i as int].spec.id.text@ == name@);
                return Some(i);
            }
            i = i + 1;
        }
        None
    }

    /// Attaches one more segment to an arena, which is registered with the
    /// first. All segments of an arena state one capacity.
    pub fn mount_cxl(&mut self, arena: &CxlArenaSpec) -> (mounted: Result<(), ResourceConflict>)
        requires
            old(self).wf(),
            old(self)@.contains_key(arena.id.text@) ==> old(
                self,
            )@[arena.id.text@].attached_segments < usize::MAX,
        ensures
            final(self).wf(),
            ({
                let name = arena.id.text@;
                let known = old(self)@.contains_key(name);
                if known && old(self)@[name].capacity_bytes != arena.capacity_bytes {
                    &&& mounted matches Err(ResourceConflict::ConflictingCxlArena { arena: refused })
                        && refused.text@ == name
                    &&& final(self)@ == old(self)@
                } else {
                    &&& mounted is Ok
                    &&& final(self)@ == old(self)@.insert(
                        name,
                        ArenaView {
                            capacity_bytes: arena.capacity_bytes,
                            attached_segments: if known {
                                old(self)@[name].attached_segments + 1
                            } else {
                                1
                            },
                        },
                    )
                }
            }),
    {
        let ghost before = self@;
        let ghost start = self.arenas@;
        match self.find(arena.id.text.as_str()) {
            Some(i) => {
                if self.arenas[i].spec.capacity_bytes != arena.capacity_bytes {
                    return Err(
                        ResourceConflict::ConflictingCxlArena {
                            arena: CxlArenaId { text: arena.id.text.clone() },
                        },
                    );
                }
                let attached: usize = self.arenas[i].attached_segments;
                self.put(i, attached + 1);
                Ok(())
            },
            None => {
                self.arenas.push(
                    CxlArenaUse {
                        spec: CxlArenaSpec {
                            id: CxlArenaId { text: arena.id.text.clone() },
                            capacity_bytes: arena.capacity_bytes,
                        },
                        attached_segments: 1,
                    },
                );
                proof {
                    lemma_arenas(start);
                    let after = self.arenas@;
                    assert(after.drop_last() =~= start);
                    assert forall|a: int, b: int| 0 <= a < b < after.len() implies (
                    #[trigger] after[a]).spec.id.text@ != (#[trigger] after[b]).spec.id.text@ by {
                        if b == start.len() {
                            assert(before.contains_key(start[a].spec.id.text@));
                        } else {
                            assert(start[a].spec.id.text@ != start[b].spec.id.text@);
                        }
                    }
                }
                Ok(())
            },
        }
    }

    /// Sets how many segments share the arena at a place.
    fn put(&mut self, i: usize, attached_segments: usize)
        requires
            old(self).wf(),
            i < old(self).arenas@.len(),
        ensures
            final(self).wf(),
            ({
                let spec = old(self).arenas@[i as int].spec;
                final(self)@ == old(self)@.insert(
                    spec.id.text@,
                    ArenaView {
                        capacity_bytes: spec.capacity_bytes,
                        attached_segments: attached_segments as nat,
                    },
                )
            }),
    {
        let ghost start = self.arenas@;
        let ghost before = self@;
        let arena = &mut self.arenas[i];
        arena.attached_segments = attached_segments;
        proof {
            let after = self.arenas@;
            let spec = start[i as int].spec;
            assert forall|j: int| 0 <= j < start.len() implies (#[trigger] after[j]).spec
                == start[j].spec by {
                if j != i {
                    assert(after[j] == start[j]);
                }
            }
            assert forall|a: int, b: int| 0 <= a < b < after.len() implies (
            #[trigger] after[a]).spec.id.text@ != (#[trigger] after[b]).spec.id.text@ by {
                assert(start[a].spec.id.text@ != start[b].spec.id.text@);
            }
            lemma_arenas(start);
            lemma_arenas(after);
            let goal = before.insert(
                spec.id.text@,
                ArenaView {
                    capacity_bytes: spec.capacity_bytes,
                    attached_segments: attached_segments as nat,
                },
            );
            assert forall|name: Seq<char>| self@.contains_key(name) == #[trigger] goal.contains_key(
                name,
            ) by {
                if self@.contains_key(name) {
                    let j = choose|j: int|
                        0 <= j < after.len() && (#[trigger] after[j]).spec.id.text@ == name;
                    assert(start[j].spec.id.text@ == name);
                }
                if before.contains_key(name) {
                    let j = choose|j: int|
                        0 <= j < start.len() && (#[trigger] start[j]).spec.id.text@ == name;
                    assert(after[j].spec.id.text@ == name);
                }
                assert(after[i as int].spec.id.text@ == spec.id.text@);
            }
            assert forall|name: Seq<char>| #[trigger] goal.contains_key(name) implies self@[name]
                == goal[name] by {
                let j = choose|j: int|
                    0 <= j < after.len() && (#[trigger] after[j]).spec.id.text@ == name;
                assert(start[j].spec.id.text@ == name);
                if j != i {
                    assert(after[j] == start[j]);
                    assert(name != spec.id.text@) by {
                        if j < i {
                            assert(start[j].spec.id.text@ != start[i as int].spec.id.text@);
                        } else {
                            assert(start[i as int].spec.id.text@ != start[j].spec.id.text@);
                        }
                    }
                }
            }
            assert(self@ =~= goal);
        }
    }

    /// Detaches a segment from its arena, which goes with the last.
    pub fn unmount_cxl(&mut self, arena: &CxlArenaId)
        requires
            old(self).wf(),
            old(self)@.contains_key(arena.text@),
            old(self)@[arena.text@].attached_segments > 0,
        ensures
            final(self).wf(),
            ({
                let held = old(self)@[arena.text@];
                final(self)@ == if held.attached_segments == 1 {
                    old(self)@.remove(arena.text@)
                } else {
                    old(self)@.insert(
                        arena.text@,
                        ArenaView {
                            attached_segments: (held.attached_segments - 1) as nat,
                            ..held
                        },
                    )
                }
            }),
    {
        let ghost before = self@;
        let ghost start = self.arenas@;
        if let Some(i) = self.find(arena.text.as_str()) {
            let attached: usize = self.arenas[i].attached_segments;
            if attached == 1 {
                let _ = self.arenas.remove(i);
                proof {
                    let after = self.arenas@;
                    assert(after =~= start.remove(i as int));
                    assert forall|a: int, b: int| 0 <= a < b < after.len() implies (
                    #[trigger] after[a]).spec.id.text@ != (#[trigger] after[b]).spec.id.text@ by {
                        let p = if a < i { a } else { a + 1 };
                        let q = if b < i { b } else { b + 1 };
                        assert(after[a] == start[p] && after[b] == start[q]);
                    }
                    lemma_arenas(start);
                    lemma_arenas(after);
                    let goal = before.remove(arena.text@);
                    assert forall|name: Seq<char>| self@.contains_key(name)
                        == #[trigger] goal.contains_key(name) by {
                        if self@.contains_key(name) {
                            let j = choose|j: int|
                                0 <= j < after.len() && (#[trigger] after[j]).spec.id.text@ == name;
                            let p = if j < i { j } else { j + 1 };
                            assert(after[j] == start[p]);
                            if p < i {
                                assert(start[p].spec.id.text@ != start[i as int].spec.id.text@);
                            } else {
                                assert(start[i as int].spec.id.text@ != start[p].spec.id.text@);
                            }
                        }
                        if goal.contains_key(name) {
                            let p = choose|p: int|
                                0 <= p < start.len() && (#[trigger] start[p]).spec.id.text@ == name;
                            let j = if p < i { p } else { p - 1 };
                            assert(after[j] == start[p]);
                        }
                    }
                    assert forall|name: Seq<char>| #[trigger] goal.contains_key(name) implies
                        self@[name] == goal[name] by {
                        let p = choose|p: int|
                            0 <= p < start.len() && (#[trigger] start[p]).spec.id.text@ == name;
                        let j = if p < i { p } else { p - 1 };
                        assert(after[j] == start[p]);
                    }
                    assert(self@ =~= goal);
                }
            } else {
                self.put(i, attached - 1);
            }
        }
    }
}

/// What a candidate for a request can do.
#[derive(Clone, Copy, Debug, Eq, PartialEq, Structural)]
pub enum CandidateCapability {
    Direct(ReplicaClass),
    Offload,
}

/// What backs a mounted segment.
pub enum MountedResource {
    Range(ShardedByteAllocator),
    LocalSsd(LocalSsdMount),
}

impl MountedResource {
    pub open spec fn wf(self) -> bool {
        match self {
            MountedResource::Range(allocator) => allocator.wf(),
            MountedResource::LocalSsd(mount) => mount.capacity.wf(),
        }
    }

    /// The figures of a capacity.
    pub open spec fn disk_space(mount: LocalSsdMount) -> SegmentSpaceStats {
        SegmentSpaceStats {
            capacity_bytes: mount.capacity.shown().capacity_bytes,
            used_bytes: mount.capacity.shown().admitted_bytes,
            available_bytes: mount.capacity.shown().available_bytes,
            largest_free_region_bytes: 0,
        }
    }

    pub fn supports_direct_reservation(&self) -> (supported: bool)
        ensures
            supported == (*self is Range),
    {
        matches!(self, Self::Range(_))
    }

    pub fn supports_offload(&self) -> (supported: bool)
        ensures
            supported == (*self is LocalSsd),
    {
        matches!(self, Self::LocalSsd(_))
    }

    pub fn may_satisfy(&self, allocator_shard: usize, bytes: u64) -> (may: bool)
        requires
            self.wf(),
        ensures
            may == match *self {
                MountedResource::Range(allocator) => exists|i: int|
                    0 <= i < allocator@.extents.len() && (#[trigger] allocator@.extents[i]).owner
                        == allocator_shard && allocator@.extents[i].space.may_satisfy(
                        bytes as nat,
                    ),
                MountedResource::LocalSsd(_) => false,
            },
    {
        match self {
            Self::Range(allocator) => allocator.may_satisfy(allocator_shard, bytes),
            Self::LocalSsd(_) => false,
        }
    }

    pub fn candidate_capability(&self, replica_class: ReplicaClass) -> (capability: Option<
        CandidateCapability,
    >)
        ensures
            capability == match *self {
                MountedResource::Range(_) => Some(CandidateCapability::Direct(replica_class)),
                MountedResource::LocalSsd(mount) => if mount.capacity.offload_enabled {
                    Some(CandidateCapability::Offload)
                } else {
                    None
                },
            },
    {
        match self {
            Self::Range(_) => Some(CandidateCapability::Direct(replica_class)),
            Self::LocalSsd(mount) => {
                if mount.capacity.offload_enabled() {
                    Some(CandidateCapability::Offload)
                } else {
                    None
                }
            },
        }
    }

    /// Reserves a range of a segment that starts at an address.
    pub fn reserve(&mut self, id: SegmentId, base: u64, allocator_shard: usize, bytes: u64) -> (reserved: Result<
        (OffsetAllocationHandle, MemoryRegion),
        ReserveError,
    >)
        requires
            old(self).wf(),
        ensures
            final(self).wf(),
            match (*old(self), *final(self)) {
                (MountedResource::LocalSsd(before), MountedResource::LocalSsd(after)) => {
                    &&& reserved == Err::<(OffsetAllocationHandle, MemoryRegion), ReserveError>(
                        ReserveError::NotDirectlyAllocatable(id),
                    )
                    &&& after == before
                },
                (MountedResource::Range(before), MountedResource::Range(after)) => match reserved {
                    Ok((handle, region)) => {
                        &&& before@.allocated_from(after@, Some(allocator_shard), bytes, Some(handle))
                        &&& region.size == bytes
                        &&& region.base == base + handle.offset
                    },
                    Err(ReserveError::OutOfSpace(segment)) => {
                        &&& segment == id
                        &&& before@.allocated_from(after@, Some(allocator_shard), bytes, None)
                    },
                    Err(ReserveError::AddressOverflow(segment)) => {
                        &&& segment == id
                        &&& before@.overflows(after@, allocator_shard, bytes, base)
                    },
                    _ => false,
                },
                _ => false,
            },
    {
        match self {
            Self::LocalSsd(_) => Err(ReserveError::NotDirectlyAllocatable(id)),
            Self::Range(allocator) => {
                let ghost before = allocator@;
                let handle = match allocator.allocate(allocator_shard, bytes) {
                    Some(handle) => handle,
                    None => return Err(ReserveError::OutOfSpace(id)),
                };
                match base.checked_add(handle.offset) {
                    Some(address) => Ok((handle, MemoryRegion::new(address, bytes))),
                    None => {
                        let ghost middle = allocator@;
                        let ghost taken = handle;
                        let released = allocator.release(handle);
                        assert(before.allocated_from(
                            middle,
                            Some(allocator_shard),
                            bytes,
                            Some(taken),
                        ));
                        assert(middle.returned_to(allocator@, taken, released));
                        assert(before.overflows(allocator@, allocator_shard, bytes, base));
                        Err(ReserveError::AddressOverflow(id))
                    },
                }
            },
        }
    }

    /// Takes note of what a disk reports.
    pub fn report_capacity(&mut self, segment: SegmentId, capacity_bytes: u64) -> (done: Result<
        (),
        LocalSsdError,
    >)
        requires
            old(self).wf(),
        ensures
            final(self).wf(),
            match *old(self) {
                MountedResource::Range(_) => {
                    &&& done == Err::<(), LocalSsdError>(LocalSsdError::NotLocalSsd(segment))
                    &&& *final(self) == *old(self)
                },
                MountedResource::LocalSsd(mount) => {
                    &&& done is Ok
                    &&& *final(self) == MountedResource::LocalSsd(
                        LocalSsdMount {
                            capacity: LocalSsdCapacity {
                                reported_capacity_bytes: Some(capacity_bytes),
                                ..mount.capacity
                            },
                            ..mount
                        },
                    )
                },
            },
    {
        match self {
            Self::Range(_) => Err(LocalSsdError::NotLocalSsd(segment)),
            Self::LocalSsd(mount) => {
                mount.capacity.report(capacity_bytes);
                Ok(())
            },
        }
    }

    pub fn set_offload_enabled(&mut self, segment: SegmentId, enabled: bool) -> (done: Result<
        (),
        LocalSsdError,
    >)
        requires
            old(self).wf(),
        ensures
            final(self).wf(),
            match *old(self) {
                MountedResource::Range(_) => {
                    &&& done == Err::<(), LocalSsdError>(LocalSsdError::NotLocalSsd(segment))
                    &&& *final(self) == *old(self)
                },
                MountedResource::LocalSsd(mount) => {
                    &&& done is Ok
                    &&& *final(self) == MountedResource::LocalSsd(
                        LocalSsdMount {
                            capacity: LocalSsdCapacity {
                                offload_enabled: enabled,
                                ..mount.capacity
                            },
                            ..mount
                        },
                    )
                },
            },
    {
        match self {
            Self::Range(_) => Err(LocalSsdError::NotLocalSsd(segment)),
            Self::LocalSsd(mount) => {
                mount.capacity.set_offload_enabled(enabled);
                Ok(())
            },
        }
    }

    /// Why an offload is not admitted.
    pub open spec fn offload_fault(self, segment: SegmentId, bytes: u64) -> Option<LocalSsdError> {
        match self {
            MountedResource::Range(_) => Some(LocalSsdError::NotLocalSsd(segment)),
            MountedResource::LocalSsd(mount) => match mount.capacity.refusal(bytes) {
                Some(AdmissionFailure::OffloadDisabled) => Some(
                    LocalSsdError::OffloadDisabled(segment),
                ),
                Some(AdmissionFailure::CapacityNotReported) => Some(
                    LocalSsdError::CapacityNotReported(segment),
                ),
                Some(AdmissionFailure::OutOfSpace) => Some(LocalSsdError::OutOfSpace(segment)),
                None => None,
            },
        }
    }

    /// Admits an offload.
    pub fn admit_offload(&mut self, segment: SegmentId, owner: ClientId, bytes: u64) -> (admitted: Result<
        OffloadPermit,
        LocalSsdError,
    >)
        requires
            old(self).wf(),
            *old(self) matches MountedResource::LocalSsd(mount) ==> mount.lifetime.leases
                < u64::MAX,
        ensures
            final(self).wf(),
            match old(self).offload_fault(segment, bytes) {
                Some(fault) => {
                    &&& admitted == Err::<OffloadPermit, LocalSsdError>(fault)
                    &&& *final(self) == *old(self)
                },
                None => match (*old(self), *final(self)) {
                    (MountedResource::LocalSsd(before), MountedResource::LocalSsd(after)) => {
                        &&& admitted matches Ok(permit) && permit.segment == segment
                            && permit.owner == owner && permit.allocation == (LocalSsdAllocation {
                            bytes,
                            committed: false,
                        }) && after.accounts_for(permit.allocation, permit.segment_lease)
                            && permit.segment_lease.incarnation == before.lifetime.incarnation
                        &&& after == (LocalSsdMount {
                            capacity: LocalSsdCapacity {
                                pending_bytes: (before.capacity.pending_bytes + bytes) as u64,
                                ..before.capacity
                            },
                            lifetime: SegmentLifetime {
                                leases: (before.lifetime.leases + 1) as u64,
                                ..before.lifetime
                            },
                        })
                    },
                    _ => false,
                },
            },
    {
        match self {
            Self::Range(_) => Err(LocalSsdError::NotLocalSsd(segment)),
            Self::LocalSsd(mount) => match mount.capacity.admit_offload(bytes) {
                Err(AdmissionFailure::OffloadDisabled) => Err(
                    LocalSsdError::OffloadDisabled(segment),
                ),
                Err(AdmissionFailure::CapacityNotReported) => Err(
                    LocalSsdError::CapacityNotReported(segment),
                ),
                Err(AdmissionFailure::OutOfSpace) => Err(LocalSsdError::OutOfSpace(segment)),
                Ok(allocation) => {
                    let lease = mount.lifetime.acquire();
                    Ok(OffloadPermit::new(allocation, lease, segment, owner))
                },
            },
        }
    }

    pub fn local_ssd_stats(&self) -> (stats: Option<LocalSsdStats>)
        requires
            self.wf(),
        ensures
            stats == match *self {
                MountedResource::Range(_) => None,
                MountedResource::LocalSsd(mount) => Some(mount.capacity.shown()),
            },
    {
        match self {
            Self::Range(_) => None,
            Self::LocalSsd(mount) => Some(mount.capacity.stats()),
        }
    }

    pub fn space_stats(&self) -> (stats: SegmentSpaceStats)
        requires
            self.wf(),
        ensures
            stats == match *self {
                MountedResource::Range(allocator) => space_of(allocator@.extents, None),
                MountedResource::LocalSsd(mount) => Self::disk_space(mount),
            },
    {
        match self {
            Self::Range(allocator) => allocator.stats(),
            Self::LocalSsd(mount) => Self::disk_figures(mount),
        }
    }

    pub fn space_stats_for_shard(&self, allocator_shard: usize) -> (stats: SegmentSpaceStats)
        requires
            self.wf(),
        ensures
            stats == match *self {
                MountedResource::Range(allocator) => space_of(
                    allocator@.extents,
                    Some(allocator_shard),
                ),
                MountedResource::LocalSsd(mount) => Self::disk_space(mount),
            },
    {
        match self {
            Self::Range(allocator) => allocator.stats_for_shard(allocator_shard),
            Self::LocalSsd(mount) => Self::disk_figures(mount),
        }
    }

    fn disk_figures(mount: &LocalSsdMount) -> (stats: SegmentSpaceStats)
        requires
            mount.capacity.wf(),
        ensures
            stats == Self::disk_space(*mount),
    {
        let stats = mount.capacity.stats();
        SegmentSpaceStats {
            capacity_bytes: stats.capacity_bytes,
            used_bytes: stats.admitted_bytes,
            available_bytes: stats.available_bytes,
            largest_free_region_bytes: 0,
        }
    }
}

proof fn lemma_first_clash(spec: ResourceSpec, existing: Seq<ResourceSpec>, from: int)
    requires
        0 <= from,
    ensures
        match spec.first_clash(existing, from) {
            Some(id) => exists|i: int|
                from <= i < existing.len() && (#[trigger] existing[i]).identity.id == id
                    && spec.clashes(existing[i]),
            None => forall|i: int|
                from <= i < existing.len() ==> !spec.clashes(#[trigger] existing[i]),
        },
    decreases existing.len() - from,
{
    if from < existing.len() {
        lemma_first_clash(spec, existing, from + 1);
    }
}

/// A client has one disk; and where another of its disks is mounted, that one is named.
pub proof fn law_one_disk_per_client(spec: ResourceSpec, existing: Seq<ResourceSpec>)
    requires
        spec.configuration is LocalSsd,
    ensures
        spec.conflict(existing) is None <==> forall|i: int|
            0 <= i < existing.len() && (#[trigger] existing[i]).configuration is LocalSsd
                ==> existing[i].identity.owner != spec.identity.owner,
        spec.conflict(existing) matches Some(conflict) ==> conflict is DuplicateLocalSsdOwner
            && exists|i: int|
            0 <= i < existing.len() && (#[trigger] existing[i]).identity.id
                == conflict->DuplicateLocalSsdOwner_existing && existing[i].identity.owner
                == spec.identity.owner && existing[i].configuration is LocalSsd,
{
    lemma_first_clash(spec, existing, 0);
    if forall|i: int|
        0 <= i < existing.len() && (#[trigger] existing[i]).configuration is LocalSsd
            ==> existing[i].identity.owner != spec.identity.owner {
        assert forall|i: int| 0 <= i < existing.len() implies !spec.clashes(
            #[trigger] existing[i],
        ) by {}
    } else {
        let i = choose|i: int|
            0 <= i < existing.len() && (#[trigger] existing[i]).configuration is LocalSsd
                && existing[i].identity.owner == spec.identity.owner;
        assert(spec.clashes(existing[i]));
    }
}

/// An endpoint of a network disk is mounted once, whoever owns it.
pub proof fn law_one_mount_per_endpoint(spec: ResourceSpec, existing: Seq<ResourceSpec>)
    requires
        spec.configuration is Nof,
    ensures
        spec.conflict(existing) is None <==> forall|i: int|
            0 <= i < existing.len() && (#[trigger] existing[i]).configuration is Nof
                ==> existing[i].configuration->Nof_transport@ != spec.configuration->Nof_transport@,
        spec.conflict(existing) matches Some(conflict) ==> conflict is DuplicateNofEndpoint,
{
    lemma_first_clash(spec, existing, 0);
    if forall|i: int|
        0 <= i < existing.len() && (#[trigger] existing[i]).configuration is Nof
            ==> existing[i].configuration->Nof_transport@ != spec.configuration->Nof_transport@ {
        assert forall|i: int| 0 <= i < existing.len() implies !spec.clashes(
            #[trigger] existing[i],
        ) by {}
    } else {
        let i = choose|i: int|
            0 <= i < existing.len() && (#[trigger] existing[i]).configuration is Nof
                && existing[i].configuration->Nof_transport@ == spec.configuration->Nof_transport@;
        assert(spec.clashes(existing[i]));
    }
}

/// Memory of one owner and transport is mounted once: ranges that meet are refused, and
/// so are ranges that leave the address space.
pub proof fn law_memory_is_mounted_once(spec: ResourceSpec, existing: Seq<ResourceSpec>, i: int)
    requires
        spec.configuration is Memory,
        0 <= i < existing.len(),
        existing[i].configuration is Memory,
    ensures
        ({
            let region = spec.configuration->Memory_region;
            let taken = existing[i].configuration->Memory_region;
            let start = if region.base < taken.base {
                taken.base
            } else {
                region.base
            };
            &&& region.base + region.size > u64::MAX ==> spec.conflict(existing) == Some(
                ResourceConflict::AddressOverflow,
            )
            &&& region.size > 0 && taken.size > 0 && existing[i].identity.owner
                == spec.identity.owner && existing[i].configuration->Memory_transport@
                == spec.configuration->Memory_transport@ && start < region.base + region.size
                && start < taken.base + taken.size ==> spec.conflict(existing) is Some
            &&& spec.conflict(existing) matches Some(conflict) ==> conflict is AddressOverflow
                || conflict is OverlappingAddressRange
        }),
{
    lemma_first_clash(spec, existing, 0);
}

/// Offloads go to disks only, and for each reason that a disk has to refuse one the
/// segment is named.
pub proof fn law_offload_faults(resource: MountedResource, segment: SegmentId, bytes: u64)
    ensures
        resource is Range ==> resource.offload_fault(segment, bytes) == Some(
            LocalSsdError::NotLocalSsd(segment),
        ),
        resource matches MountedResource::LocalSsd(mount) ==> {
            let capacity = mount.capacity;
            let fault = resource.offload_fault(segment, bytes);
            &&& !capacity.offload_enabled ==> fault == Some(LocalSsdError::OffloadDisabled(segment))
            &&& capacity.offload_enabled && capacity.reported_capacity_bytes is None ==> fault
                == Some(LocalSsdError::CapacityNotReported(segment))
            &&& capacity.offload_enabled && capacity.reported_capacity_bytes is Some ==> (fault
                is None <==> capacity.pending_bytes + capacity.committed_bytes + bytes
                <= capacity.reported_capacity_bytes.unwrap())
        },
{
}

} // verus!
