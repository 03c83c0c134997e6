//! A region that is split into extents, each allocated from on its own and owned
//! by one shard.

use super::offset_allocator::{
    is_quantum_for, range_taken, size_class, AllocatorStats, AllocatorView, ByteAllocator,
    OffsetAllocationHandle,
};
use super::stats::SegmentSpaceStats;
use vstd::prelude::*;

verus! {

/// How long the extents of a region are. The first ones take what is left over
/// when the region is divided.
pub open spec fn extent_size(capacity: u64, shards: int, index: int) -> int {
    capacity as int / shards + if index < capacity as int % shards {
        1int
    } else {
        0
    }
}

/// Where the extents of a region start.
pub open spec fn extent_start(capacity: u64, shards: int, index: int) -> int {
    index * (capacity as int / shards) + if index < capacity as int % shards {
        index
    } else {
        capacity as int % shards
    }
}

/// The extents of a region lie one after the other and cover it: the first one
/// starts where the region starts, each starts where the one before it ends, and
/// the last one ends where the region ends.
pub proof fn law_extents_tile_the_region(capacity: u64, shards: int, index: int)
    requires
        0 < shards,
        0 <= index < shards,
    ensures
        extent_start(capacity, shards, 0) == 0,
        extent_start(capacity, shards, index + 1) == extent_start(capacity, shards, index)
            + extent_size(capacity, shards, index),
        extent_start(capacity, shards, shards) == capacity,
        extent_size(capacity, shards, index) >= 0,
        shards <= capacity ==> extent_size(capacity, shards, index) > 0,
{
    let part = capacity as int / shards;
    let rest = capacity as int % shards;
    vstd::arithmetic::div_mod::lemma_fundamental_div_mod(capacity as int, shards);
    vstd::arithmetic::div_mod::lemma_mod_bound(capacity as int, shards);
    vstd::arithmetic::div_mod::lemma_div_pos_is_pos(capacity as int, shards);
    assert((index + 1) * part == index * part + part) by (nonlinear_arith);
    assert(0 * part == 0);
    assert(shards * part == part * shards) by (nonlinear_arith);
    if shards <= capacity {
        assert(part >= 1) by (nonlinear_arith)
            requires
                capacity == shards * part + rest,
                rest < shards,
                shards <= capacity,
                0 < shards,
        ;
    }
}

/// Later extents start after earlier ones end, and none ends beyond the region.
pub proof fn lemma_extents_ordered(capacity: u64, shards: int, first: int, second: int)
    requires
        0 <= first < second <= shards,
    ensures
        0 <= extent_start(capacity, shards, first),
        extent_start(capacity, shards, first) + extent_size(capacity, shards, first)
            <= extent_start(capacity, shards, second),
        extent_start(capacity, shards, second) <= capacity,
    decreases shards - first, second - first,
{
    law_extents_tile_the_region(capacity, shards, first);
    lemma_extents_nonnegative(capacity, shards, first);
    if first + 1 < second {
        lemma_extents_ordered(capacity, shards, first + 1, second);
        law_extents_tile_the_region(capacity, shards, first + 1);
    } else if second < shards {
        lemma_extents_ordered(capacity, shards, second, shards);
        law_extents_tile_the_region(capacity, shards, second);
    }
}

proof fn lemma_extents_nonnegative(capacity: u64, shards: int, index: int)
    requires
        0 < shards,
        0 <= index,
    ensures
        0 <= extent_start(capacity, shards, index),
{
    vstd::arithmetic::div_mod::lemma_mod_bound(capacity as int, shards);
    vstd::arithmetic::div_mod::lemma_div_pos_is_pos(capacity as int, shards);
    let part = capacity as int / shards;
    assert(0 <= index * part) by (nonlinear_arith)
        requires
            index >= 0,
            part >= 0,
    ;
}

/// Whether a space is a new extent.
pub open spec fn is_new_extent(space: AllocatorView, start: int, size: int, nodes: int) -> bool {
    &&& space.base == start
    &&& space.nodes == nodes
    &&& space.largest == size_class(space.units)
    &&& is_quantum_for(space.quantum, size as nat)
    &&& space.units == size as nat / space.quantum
    &&& space.live == Map::<u32, u32>::empty()
    &&& space.available == space.units
    &&& space.hint == space.largest * space.quantum
}

/// The contents of an extent.
pub struct ExtentView {
    pub space: AllocatorView,
    pub owner: usize,
}

impl ExtentView {
    /// Where the extent ends.
    pub open spec fn end(self) -> int {
        (self.space.base + self.space.capacity()) as int
    }

    /// Whether a byte lies in the extent.
    pub open spec fn covers(self, offset: u64) -> bool {
        self.space.base <= offset < self.end()
    }

    /// The extent after a request that it could not meet.
    pub open spec fn missed(self, shard: Option<usize>, bytes: u64) -> ExtentView {
        if serves(shard, self.owner) && self.space.may_satisfy(bytes as nat) {
            ExtentView {
                space: AllocatorView {
                    hint: self.space.largest * self.space.quantum,
                    ..self.space
                },
                ..self
            }
        } else {
            self
        }
    }

    /// Whether the extent could be handed over: it is the shard's, takes
    /// requests of a size, and nothing is taken from it.
    pub open spec fn can_move(self, shard: usize, minimum_bytes: u64) -> bool {
        self.owner == shard && self.space.may_satisfy(minimum_bytes as nat)
            && self.space.live.dom().len() == 0
    }
}

/// Whether an extent of an owner serves requests for a shard, or for any shard.
pub open spec fn serves(shard: Option<usize>, owner: usize) -> bool {
    shard is None || shard == Some(owner)
}

/// The first extent of a shard, or of any, that meets a request.
pub open spec fn first_fit(
    extents: Seq<ExtentView>,
    shard: Option<usize>,
    bytes: u64,
    from: int,
) -> Option<int>
    decreases extents.len() - from,
{
    if from < 0 || from >= extents.len() {
        None
    } else if serves(shard, extents[from].owner) && extents[from].space.fits(bytes as nat) {
        Some(from)
    } else {
        first_fit(extents, shard, bytes, from + 1)
    }
}

/// The first extent of a shard that could be handed over.
pub open spec fn first_movable(
    extents: Seq<ExtentView>,
    shard: usize,
    minimum_bytes: u64,
    from: int,
) -> Option<int>
    decreases extents.len() - from,
{
    if from < 0 || from >= extents.len() {
        None
    } else if extents[from].can_move(shard, minimum_bytes) {
        Some(from)
    } else {
        first_movable(extents, shard, minimum_bytes, from + 1)
    }
}

/// Whether extents lie apart from each other.
pub open spec fn lie_apart(extents: Seq<ExtentView>) -> bool {
    forall|i: int, j: int|
        0 <= i < j < extents.len() ==> (#[trigger] extents[i]).end() <= (
        #[trigger] extents[j]).space.base || extents[j].end() <= extents[i].space.base
}

/// The extent that a byte lies in.
pub open spec fn holder_of(extents: Seq<ExtentView>, offset: u64, from: int) -> Option<int>
    decreases extents.len() - from,
{
    if from < 0 || from >= extents.len() {
        None
    } else if extents[from].covers(offset) {
        Some(from)
    } else {
        holder_of(extents, offset, from + 1)
    }
}

/// A sum that stops at the largest value.
pub open spec fn capped(sum: int) -> u64 {
    if sum > u64::MAX {
        u64::MAX
    } else {
        sum as u64
    }
}

/// Figures with those of one more extent.
pub open spec fn with_extent(total: SegmentSpaceStats, space: AllocatorView) -> SegmentSpaceStats {
    let largest = (space.largest * space.quantum) as u64;
    SegmentSpaceStats {
        capacity_bytes: capped(total.capacity_bytes + space.capacity()),
        used_bytes: capped(total.used_bytes + space.used()),
        available_bytes: capped(total.available_bytes + space.available * space.quantum),
        largest_free_region_bytes: if total.largest_free_region_bytes < largest {
            largest
        } else {
            total.largest_free_region_bytes
        },
    }
}

/// The figures of extents together, or of those that a shard owns.
pub open spec fn space_of(extents: Seq<ExtentView>, shard: Option<usize>) -> SegmentSpaceStats
    decreases extents.len(),
{
    if extents.len() == 0 {
        SegmentSpaceStats {
            capacity_bytes: 0,
            used_bytes: 0,
            available_bytes: 0,
            largest_free_region_bytes: 0,
        }
    } else {
        let rest = space_of(extents.drop_last(), shard);
        if shard is None || shard == Some(extents.last().owner) {
            with_extent(rest, extents.last().space)
        } else {
            rest
        }
    }
}

/// The number of ranges that are out of extents.
pub open spec fn range_count(extents: Seq<ExtentView>) -> nat
    decreases extents.len(),
{
    if extents.len() == 0 {
        0
    } else {
        range_count(extents.drop_last()) + extents.last().space.live.dom().len()
    }
}

/// One independently allocatable range whose ownership may move between metadata
/// shards only while the range is completely empty.
pub struct AllocatorExtent {
    allocator: ByteAllocator,
    owner: usize,
}

impl View for AllocatorExtent {
    type V = ExtentView;

    closed spec fn view(&self) -> ExtentView {
        ExtentView { space: self.allocator@, owner: self.owner }
    }
}

impl AllocatorExtent {
    pub closed spec fn wf(&self) -> bool {
        self.allocator.wf()
    }
}

/// An extent on its way from one allocator to another.
pub struct TransferableExtent {
    extent: AllocatorExtent,
}

impl View for TransferableExtent {
    type V = ExtentView;

    closed spec fn view(&self) -> ExtentView {
        self.extent@
    }
}

impl TransferableExtent {
    pub closed spec fn wf(&self) -> bool {
        self.extent.wf()
    }
}

/// A region that is split into extents.
pub struct ShardedByteAllocator {
    extents: Vec<AllocatorExtent>,
    shard_local: bool,
}

/// The contents of a [`ShardedByteAllocator`].
pub struct ShardsView {
    pub extents: Seq<ExtentView>,
    /// Whether the allocator serves one shard only.
    pub shard_local: bool,
}

impl ShardsView {
    /// Whether `after` and `allocated` are what asking for a range comes to. It
    /// is taken from the first of the extents asked for that meets the request;
    /// those before it that looked as if they would learn better.
    pub open spec fn allocated_from(
        self,
        after: ShardsView,
        shard: Option<usize>,
        bytes: u64,
        allocated: Option<OffsetAllocationHandle>,
    ) -> bool {
        &&& after.shard_local == self.shard_local
        &&& after.extents.len() == self.extents.len()
        &&& match (allocated, first_fit(self.extents, shard, bytes, 0)) {
            (Some(handle), Some(k)) => {
                let taken_from = self.extents[k];
                let left = after.extents[k];
                &&& 0 <= k < self.extents.len()
                &&& range_taken(taken_from.space, left.space, handle, bytes)
                &&& left.owner == taken_from.owner
                &&& left.space.base == taken_from.space.base
                &&& left.space.quantum == taken_from.space.quantum
                &&& left.space.units == taken_from.space.units
                &&& left.space.nodes == taken_from.space.nodes
                &&& forall|i: int|
                    0 <= i < k ==> (#[trigger] after.extents[i]) == self.extents[i].missed(
                        shard,
                        bytes,
                    )
                &&& forall|i: int|
                    k < i < self.extents.len() ==> (#[trigger] after.extents[i]) == self.extents[i]
            },
            (None, None) => forall|i: int|
                0 <= i < self.extents.len() ==> (#[trigger] after.extents[i])
                    == self.extents[i].missed(shard, bytes),
            _ => false,
        }
    }

    /// Whether `after` follows when a range was taken whose address, counted from
    /// `base`, is none, and was given back.
    pub open spec fn overflows(self, after: ShardsView, shard: usize, bytes: u64, base: u64) -> bool {
        exists|handle: OffsetAllocationHandle, middle: ShardsView, released: bool|
            {
                &&& #[trigger] self.allocated_from(middle, Some(shard), bytes, Some(handle))
                &&& #[trigger] middle.returned_to(after, handle, released)
                &&& base + handle.offset > u64::MAX
            }
    }

    /// Whether `after` and `released` are what taking a range back comes to.
    pub open spec fn returned_to(
        self,
        after: ShardsView,
        handle: OffsetAllocationHandle,
        released: bool,
    ) -> bool {
        &&& after.shard_local == self.shard_local
        &&& after.extents.len() == self.extents.len()
        &&& match holder_of(self.extents, handle.offset, 0) {
            None => !released && after == self,
            Some(k) => {
                let held = self.extents[k];
                let left = after.extents[k];
                &&& 0 <= k < self.extents.len()
                &&& released == held.space.live.contains_key(handle.unit)
                &&& !released ==> after == self
                &&& forall|i: int|
                    0 <= i < self.extents.len() && i != k ==> (#[trigger] after.extents[i])
                        == self.extents[i]
                &&& released ==> left.owner == held.owner && left.space.live
                    == held.space.live.remove(handle.unit) && left.space.base == held.space.base
                    && left.space.quantum == held.space.quantum && left.space.units
                    == held.space.units && left.space.nodes == held.space.nodes
            },
        }
    }
}

impl View for ShardedByteAllocator {
    type V = ShardsView;

    closed spec fn view(&self) -> ShardsView {
        ShardsView {
            extents: self.extents@.map_values(|extent: AllocatorExtent| extent@),
            shard_local: self.shard_local,
        }
    }
}

/// Adds figures up.
fn add_allocator_stats(total: SegmentSpaceStats, stats: AllocatorStats) -> (sum: SegmentSpaceStats)
    ensures
        sum == (SegmentSpaceStats {
            capacity_bytes: capped(total.capacity_bytes + stats.capacity),
            used_bytes: capped(total.used_bytes + stats.used_bytes),
            available_bytes: capped(total.available_bytes + stats.available_bytes),
            largest_free_region_bytes: if total.largest_free_region_bytes
                < stats.largest_free_region {
                stats.largest_free_region
            } else {
                total.largest_free_region_bytes
            },
        }),
{
    SegmentSpaceStats {
        capacity_bytes: total.capacity_bytes.saturating_add(stats.capacity),
        used_bytes: total.used_bytes.saturating_add(stats.used_bytes),
        available_bytes: total.available_bytes.saturating_add(stats.available_bytes),
        largest_free_region_bytes: if total.largest_free_region_bytes < stats.largest_free_region {
            stats.largest_free_region
        } else {
            total.largest_free_region_bytes
        },
    }
}

impl ShardedByteAllocator {
    /// What holds of every allocator: its extents lie apart from each other.
    pub closed spec fn wf(&self) -> bool {
        &&& forall|i: int| 0 <= i < self.extents@.len() ==> (#[trigger] self.extents@[i]).wf()
        &&& lie_apart(self@.extents)
    }

    /// An allocator's own invariant, for callers that hold the allocator.
    pub proof fn lemma_wf(&self)
        requires
            self.wf(),
        ensures
            lie_apart(self@.extents),
            forall|i: int|
                0 <= i < self@.extents.len() ==> (#[trigger] self@.extents[i]).space.wf(),
    {
        assert forall|i: int| 0 <= i < self@.extents.len() implies (
        #[trigger] self@.extents[i]).space.wf() by {
            assert(self.extents@[i].wf());
            self.extents@[i].allocator.lemma_wf();
        }
    }

    /// Splits a region into as many extents as there are shards, one for each.
    /// With an owned shard, only that shard's extent is made.
    pub fn new(
        capacity: u64,
        shard_count: usize,
        owned_shard: Option<usize>,
        max_allocator_nodes: u32,
    ) -> (allocator: Self)
        requires
            0 < shard_count <= u32::MAX,
            shard_count <= capacity,
            max_allocator_nodes < 0xffff_fffe,
            max_allocator_nodes as int / shard_count as int >= 3,
        ensures
            allocator.wf(),
            allocator@.shard_local == (owned_shard is Some),
            match owned_shard {
                None => {
                    &&& allocator@.extents.len() == shard_count
                    &&& forall|i: int|
                        0 <= i < shard_count ==> (#[trigger] allocator@.extents[i]).owner == i
                            && is_new_extent(
                            allocator@.extents[i].space,
                            extent_start(capacity, shard_count as int, i),
                            extent_size(capacity, shard_count as int, i),
                            extent_size(max_allocator_nodes as u64, shard_count as int, i),
                        )
                },
                Some(shard) => if shard < shard_count {
                    &&& allocator@.extents.len() == 1
                    &&& allocator@.extents[0].owner == shard
                    &&& is_new_extent(
                        allocator@.extents[0].space,
                        extent_start(capacity, shard_count as int, shard as int),
                        extent_size(capacity, shard_count as int, shard as int),
                        extent_size(max_allocator_nodes as u64, shard_count as int, shard as int),
                    )
                } else {
                    allocator@.extents.len() == 0
                },
            },
    {
        let mut extents: Vec<AllocatorExtent> = Vec::new();
        match owned_shard {
            Some(shard) => {
                if shard < shard_count {
                    extents.push(
                        Self::make_extent(capacity, shard_count, shard, max_allocator_nodes),
                    );
                }
                let allocator = Self { extents, shard_local: true };
                allocator
            },
            None => {
                let mut index: usize = 0;
                while index < shard_count
                    invariant
                        index <= shard_count,
                        0 < shard_count <= u32::MAX,
                        shard_count <= capacity,
                        max_allocator_nodes < 0xffff_fffe,
                        max_allocator_nodes as int / shard_count as int >= 3,
                        extents@.len() == index,
                        forall|i: int|
                            0 <= i < index ==> (#[trigger] extents@[i]).wf() && extents@[i]@.owner
                                == i && is_new_extent(
                                extents@[i]@.space,
                                extent_start(capacity, shard_count as int, i),
                                extent_size(capacity, shard_count as int, i),
                                extent_size(max_allocator_nodes as u64, shard_count as int, i),
                            ) && extents@[i]@.end() <= extent_start(
                                capacity,
                                shard_count as int,
                                i,
                            ) + extent_size(capacity, shard_count as int, i),
                    decreases shard_count - index,
                {
                    extents.push(
                        Self::make_extent(capacity, shard_count, index, max_allocator_nodes),
                    );
                    index = index + 1;
                }
                let allocator = Self { extents, shard_local: false };
                proof {
                    let seen = allocator@.extents;
                    assert forall|i: int, j: int| 0 <= i < j < seen.len() implies (
                    #[trigger] seen[i]).end() <= (#[trigger] seen[j]).space.base
                        || seen[j].end() <= seen[i].space.base by {
                        assert(seen[i] == extents@[i]@);
                        assert(seen[j] == extents@[j]@);
                        lemma_extents_ordered(capacity, shard_count as int, i, j);
                    }
                    assert forall|i: int| 0 <= i < shard_count implies (
                    #[trigger] seen[i]).owner == i && is_new_extent(
                        seen[i].space,
                        extent_start(capacity, shard_count as int, i),
                        extent_size(capacity, shard_count as int, i),
                        extent_size(max_allocator_nodes as u64, shard_count as int, i),
                    ) by {
                        assert(seen[i] == extents@[i]@);
                    }
                }
                allocator
            },
        }
    }

    /// Makes the extent of one shard.
    fn make_extent(capacity: u64, shard_count: usize, index: usize, max_allocator_nodes: u32) -> (extent: AllocatorExtent)
        requires
            0 < shard_count <= u32::MAX,
            shard_count <= capacity,
            index < shard_count,
            max_allocator_nodes < 0xffff_fffe,
            max_allocator_nodes as int / shard_count as int >= 3,
        ensures
            extent.wf(),
            extent@.owner == index,
            is_new_extent(
                extent@.space,
                extent_start(capacity, shard_count as int, index as int),
                extent_size(capacity, shard_count as int, index as int),
                extent_size(max_allocator_nodes as u64, shard_count as int, index as int),
            ),
            extent@.end() <= extent_start(capacity, shard_count as int, index as int)
                + extent_size(capacity, shard_count as int, index as int),
    {
        let shards: u64 = shard_count as u64;
        let number: u64 = index as u64;
        let base_capacity: u64 = capacity / shards;
        let remainder: u64 = capacity % shards;
        let base_nodes: u32 = max_allocator_nodes / shard_count as u32;
        let node_remainder: u32 = max_allocator_nodes % shard_count as u32;
        proof {
            law_extents_tile_the_region(capacity, shards as int, number as int);
            lemma_extents_ordered(capacity, shards as int, number as int, shards as int);
            assert(0 <= number * base_capacity) by (nonlinear_arith)
                requires
                    number >= 0,
                    base_capacity >= 0,
            ;
        }
        let arena_capacity: u64 = if number < remainder {
            base_capacity + 1
        } else {
            base_capacity
        };
        let arena_nodes: u32 = if (index as u32) < node_remainder {
            proof {
                lemma_nodes(max_allocator_nodes as int, shards as int);
            }
            base_nodes + 1
        } else {
            proof {
                lemma_nodes(max_allocator_nodes as int, shards as int);
            }
            base_nodes
        };
        let before: u64 = if number < remainder {
            number
        } else {
            remainder
        };
        let base: u64 = number * base_capacity + before;
        let allocator = ByteAllocator::new_at(base, arena_capacity, arena_nodes);
        proof {
            let space = allocator@;
            allocator.lemma_wf();
            assert(space.units * space.quantum <= arena_capacity) by (nonlinear_arith)
                requires
                    space.units == arena_capacity as nat / space.quantum,
                    space.quantum > 0,
            ;
        }
        AllocatorExtent { allocator, owner: index }
    }

    /// Whether the allocator serves one shard only.
    pub fn is_shard_local(&self) -> (local: bool)
        ensures
            local == self@.shard_local,
    {
        self.shard_local
    }

    /// Whether an extent of a shard takes requests of a size.
    pub fn may_satisfy(&self, shard: usize, bytes: u64) -> (may: bool)
        requires
            self.wf(),
        ensures
            may == exists|i: int|
                0 <= i < self@.extents.len() && (#[trigger] self@.extents[i]).owner == shard
                    && self@.extents[i].space.may_satisfy(bytes as nat),
    {
        self.may_serve(Some(shard), bytes)
    }

    /// Whether an extent of a shard, or of any, takes requests of a size.
    pub fn may_serve(&self, shard: Option<usize>, bytes: u64) -> (may: bool)
        requires
            self.wf(),
        ensures
            may == exists|i: int|
                0 <= i < self@.extents.len() && serves(shard, (#[trigger] self@.extents[i]).owner)
                    && self@.extents[i].space.may_satisfy(bytes as nat),
    {
        let mut i: usize = 0;
        while i < self.extents.len()
            invariant
                i <= self.extents@.len(),
                self.wf(),
                forall|j: int|
                    0 <= j < i ==> !(serves(shard, (#[trigger] self@.extents[j]).owner)
                        && self@.extents[j].space.may_satisfy(bytes as nat)),
            decreases self.extents@.len() - i,
        {
            assert(self.extents@[i as int].wf());
            assert(self@.extents[i as int] == self.extents@[i as int]@);
            if Self::is_served(shard, self.extents[i].owner)
                && self.extents[i].allocator.may_satisfy(bytes) {
                return true;
            }
            i = i + 1;
        }
        false
    }

    /// Hands out a range from the first of a shard's extents that meets the
    /// request.
    pub fn allocate(&mut self, shard: usize, bytes: u64) -> (allocated: Option<
        OffsetAllocationHandle,
    >)
        requires
            old(self).wf(),
        ensures
            final(self).wf(),
            old(self)@.allocated_from(final(self)@, Some(shard), bytes, allocated),
    {
        self.allocate_from(Some(shard), bytes)
    }

    fn is_served(shard: Option<usize>, owner: usize) -> (served: bool)
        ensures
            served == serves(shard, owner),
    {
        match shard {
            None => true,
            Some(shard) => shard == owner,
        }
    }

    /// Hands out a range from the first of a shard's extents, or of all extents,
    /// that meets the request.
    pub fn allocate_from(&mut self, shard: Option<usize>, bytes: u64) -> (allocated: Option<
        OffsetAllocationHandle,
    >)
        requires
            old(self).wf(),
        ensures
            final(self).wf(),
            old(self)@.allocated_from(final(self)@, shard, bytes, allocated),
    {
        let ghost before = self@.extents;
        let ghost start = self.extents@;
        let mut i: usize = 0;
        while i < self.extents.len()
            invariant
                i <= self.extents@.len(),
                self.extents@.len() == start.len(),
                self.shard_local == old(self).shard_local,
                before == old(self)@.extents,
                before.len() == start.len(),
                lie_apart(before),
                forall|j: int| 0 <= j < start.len() ==> (#[trigger] self.extents@[j]).wf(),
                forall|j: int| 0 <= j < start.len() ==> (#[trigger] start[j])@ == before[j],
                forall|j: int|
                    0 <= j < i ==> (#[trigger] self.extents@[j])@ == before[j].missed(shard, bytes),
                forall|j: int| i <= j < start.len() ==> (#[trigger] self.extents@[j]) == start[j],
                first_fit(before, shard, bytes, 0) == first_fit(before, shard, bytes, i as int),
            decreases start.len() - i,
        {
            let ghost here = self.extents@;
            let ghost known = self.extents@[i as int];
            proof {
                assert(known.wf());
                assert(known@ == before[i as int]);
                known.allocator.lemma_wf();
                before[i as int].space.lemma_fits(bytes as nat);
            }
            if Self::is_served(shard, self.extents[i].owner) {
                let extent = &mut self.extents[i];
                let allocated = extent.allocator.allocate(bytes);
                proof {
                    let changed = self.extents@[i as int];
                    assert(self.extents@ == here.update(i as int, changed));
                    assert forall|j: int| 0 <= j < start.len() implies (
                    #[trigger] self.extents@[j]).wf() by {
                        if j != i {
                            assert(self.extents@[j] == here[j]);
                        }
                    }
                    assert forall|j: int| 0 <= j < start.len() implies (
                    #[trigger] self@.extents[j]) == self.extents@[j]@ by {}
                }
                if let Some(handle) = allocated {
                    proof {
                        let after = self@.extents;
                        assert forall|j: int| 0 <= j < i implies (#[trigger] after[j])
                            == before[j].missed(shard, bytes) by {
                            assert(self.extents@[j] == here[j]);
                        }
                        assert forall|j: int| i < j < before.len() implies (#[trigger] after[j])
                            == before[j] by {
                            assert(self.extents@[j] == here[j]);
                        }
                        lemma_same_places(before, after);
                    }
                    return Some(handle);
                }
                proof {
                    assert(self.extents@[i as int]@ == before[i as int].missed(shard, bytes));
                    assert forall|j: int| 0 <= j < i + 1 implies (#[trigger] self.extents@[j])@
                        == before[j].missed(shard, bytes) by {
                        if j != i {
                            assert(self.extents@[j] == here[j]);
                        }
                    }
                    assert forall|j: int| i + 1 <= j < start.len() implies (
                    #[trigger] self.extents@[j]) == start[j] by {
                        assert(self.extents@[j] == here[j]);
                    }
                }
            }
            i = i + 1;
        }
        proof {
            lemma_same_places(before, self@.extents);
        }
        None
    }

    /// Takes a range back. A range that is not out is left alone.
    pub fn release(&mut self, handle: OffsetAllocationHandle) -> (released: bool)
        requires
            old(self).wf(),
        ensures
            final(self).wf(),
            old(self)@.returned_to(final(self)@, handle, released),
    {
        let ghost before = self@.extents;
        let ghost start = self.extents@;
        let mut i: usize = 0;
        while i < self.extents.len()
            invariant
                i <= self.extents@.len(),
                self.wf(),
                *self == *old(self),
                before == self@.extents,
                start == self.extents@,
                holder_of(before, handle.offset, 0) == holder_of(before, handle.offset, i as int),
            decreases self.extents@.len() - i,
        {
            let ghost known = self.extents@[i as int];
            assert(known.wf());
            assert(before[i as int] == known@);
            if self.extents[i].covers(handle.offset) {
                let extent = &mut self.extents[i];
                let released = extent.allocator.release(handle);
                proof {
                    let changed = self.extents@[i as int];
                    assert(self.extents@ == start.update(i as int, changed));
                    assert forall|j: int| 0 <= j < start.len() implies (
                    #[trigger] self.extents@[j]).wf() by {
                        if j != i {
                            assert(self.extents@[j] == start[j]);
                            assert(start[j].wf());
                        }
                    }
                    let after = self@.extents;
                    assert forall|j: int| 0 <= j < before.len() && j != i implies (
                    #[trigger] after[j]) == before[j] by {
                        assert(self.extents@[j] == start[j]);
                    }
                    if !released {
                        assert(after =~= before);
                    }
                    lemma_same_places(before, after);
                }
                return released;
            }
            i = i + 1;
        }
        false
    }

    /// The space of a shard's extents.
    pub fn stats_for_shard(&self, shard: usize) -> (stats: SegmentSpaceStats)
        requires
            self.wf(),
        ensures
            stats == space_of(self@.extents, Some(shard)),
    {
        self.stats_of(Some(shard))
    }

    /// The space of all extents.
    pub fn stats(&self) -> (stats: SegmentSpaceStats)
        requires
            self.wf(),
        ensures
            stats == space_of(self@.extents, None),
    {
        self.stats_of(None)
    }

    /// The number of ranges that are out.
    pub fn live_allocations(&self) -> (count: u64)
        requires
            self.wf(),
        ensures
            count == capped(range_count(self@.extents) as int),
    {
        let mut count: u64 = 0;
        let mut i: usize = 0;
        assert(self@.extents.take(0) =~= Seq::empty());
        while i < self.extents.len()
            invariant
                i <= self.extents@.len(),
                self.wf(),
                count == capped(range_count(self@.extents.take(i as int)) as int),
            decreases self.extents@.len() - i,
        {
            proof {
                assert(self.extents@[i as int].wf());
                assert(self@.extents[i as int] == self.extents@[i as int]@);
                assert(self@.extents.take(i as int + 1).drop_last() =~= self@.extents.take(
                    i as int,
                ));
                assert(self@.extents.take(i as int + 1).last() == self@.extents[i as int]);
            }
            count = count.saturating_add(self.extents[i].allocator.stats().live_allocations);
            i = i + 1;
        }
        assert(self@.extents.take(i as int) =~= self@.extents);
        count
    }

    fn stats_of(&self, shard: Option<usize>) -> (stats: SegmentSpaceStats)
        requires
            self.wf(),
        ensures
            stats == space_of(self@.extents, shard),
    {
        let mut stats = SegmentSpaceStats {
            capacity_bytes: 0,
            used_bytes: 0,
            available_bytes: 0,
            largest_free_region_bytes: 0,
        };
        let mut i: usize = 0;
        assert(self@.extents.take(0) =~= Seq::empty());
        while i < self.extents.len()
            invariant
                i <= self.extents@.len(),
                self.wf(),
                stats == space_of(self@.extents.take(i as int), shard),
            decreases self.extents@.len() - i,
        {
            proof {
                assert(self.extents@[i as int].wf());
                assert(self@.extents[i as int] == self.extents@[i as int]@);
                assert(self@.extents.take(i as int + 1).drop_last() =~= self@.extents.take(
                    i as int,
                ));
                assert(self@.extents.take(i as int + 1).last() == self@.extents[i as int]);
            }
            let counted = match shard {
                None => true,
                Some(owner) => owner == self.extents[i].owner,
            };
            if counted {
                stats = add_allocator_stats(stats, self.extents[i].allocator.stats());
            }
            i = i + 1;
        }
        assert(self@.extents.take(i as int) =~= self@.extents);
        stats
    }

    /// Takes the first of a shard's extents out that is empty and takes requests
    /// of a size.
    pub fn take_empty_extent(&mut self, shard: usize, minimum_bytes: u64) -> (taken: Option<
        TransferableExtent,
    >)
        requires
            old(self).wf(),
        ensures
            final(self).wf(),
            match first_movable(old(self)@.extents, shard, minimum_bytes, 0) {
                None => taken is None && final(self)@ == old(self)@,
                Some(k) => {
                    &&& 0 <= k < old(self)@.extents.len()
                    &&& taken matches Some(extent) && extent.wf() && extent@ == old(
                        self,
                    )@.extents[k]
                    &&& final(self)@ == (ShardsView {
                        extents: old(self)@.extents.remove(k),
                        ..old(self)@
                    })
                },
            },
    {
        let ghost before = self@.extents;
        let ghost start = self.extents@;
        let mut i: usize = 0;
        while i < self.extents.len()
            invariant
                i <= self.extents@.len(),
                self.wf(),
                *self == *old(self),
                before == self@.extents,
                start == self.extents@,
                first_movable(before, shard, minimum_bytes, 0) == first_movable(
                    before,
                    shard,
                    minimum_bytes,
                    i as int,
                ),
            decreases self.extents@.len() - i,
        {
            let ghost known = self.extents@[i as int];
            assert(known.wf());
            assert(before[i as int] == known@);
            if self.extents[i].owner == shard && self.extents[i].allocator.may_satisfy(
                minimum_bytes,
            ) && self.extents[i].allocator.stats().live_allocations == 0 {
                let extent = self.extents.remove(i);
                proof {
                    let after = self@.extents;
                    assert(after =~= before.remove(i as int));
                    assert forall|j: int| 0 <= j < self.extents@.len() implies (
                    #[trigger] self.extents@[j]).wf() by {
                        let k = if j < i { j } else { j + 1 };
                        assert(self.extents@[j] == start[k]);
                        assert(start[k].wf());
                    }
                    assert forall|a: int, b: int| 0 <= a < b < after.len() implies (
                    #[trigger] after[a]).end() <= (#[trigger] after[b]).space.base
                        || after[b].end() <= after[a].space.base by {
                        let p = if a < i { a } else { a + 1 };
                        let q = if b < i { b } else { b + 1 };
                        assert(after[a] == before[p] && after[b] == before[q]);
                    }
                }
                return Some(TransferableExtent { extent });
            }
            i = i + 1;
        }
        None
    }

    /// Takes an extent in for a shard. It lies apart from those that are there.
    pub fn add_extent(&mut self, shard: usize, extent: TransferableExtent)
        requires
            old(self).wf(),
            extent.wf(),
            forall|i: int|
                0 <= i < old(self)@.extents.len() ==> (#[trigger] old(self)@.extents[i]).end()
                    <= extent@.space.base || extent@.end() <= old(self)@.extents[i].space.base,
        ensures
            final(self).wf(),
            final(self)@ == (ShardsView {
                extents: old(self)@.extents.push(
                    ExtentView { owner: shard, space: extent@.space },
                ),
                ..old(self)@
            }),
    {
        let ghost before = self@.extents;
        let ghost start = self.extents@;
        let ghost added = ExtentView { owner: shard, space: extent@.space };
        let mut moved = extent.extent;
        moved.owner = shard;
        self.extents.push(moved);
        proof {
            let after = self@.extents;
            assert(after =~= before.push(added));
            assert forall|j: int| 0 <= j < self.extents@.len() implies (
            #[trigger] self.extents@[j]).wf() by {
                if j < start.len() {
                    assert(self.extents@[j] == start[j]);
                    assert(start[j].wf());
                }
            }
            assert forall|a: int, b: int| 0 <= a < b < after.len() implies (
            #[trigger] after[a]).end() <= (#[trigger] after[b]).space.base || after[b].end()
                <= after[a].space.base by {
                assert(after[a] == before[a]);
                if b < before.len() {
                    assert(after[b] == before[b]);
                }
            }
        }
    }
}

impl AllocatorExtent {
    fn covers(&self, offset: u64) -> (covers: bool)
        requires
            self.wf(),
        ensures
            covers == self@.covers(offset),
    {
        self.allocator.covers(offset)
    }
}

/// Extents that stay where they are lie apart as before.
proof fn lemma_same_places(before: Seq<ExtentView>, after: Seq<ExtentView>)
    requires
        lie_apart(before),
        after.len() == before.len(),
        forall|i: int|
            0 <= i < before.len() ==> (#[trigger] after[i]).space.base == before[i].space.base
                && after[i].space.quantum == before[i].space.quantum && after[i].space.units
                == before[i].space.units,
    ensures
        lie_apart(after),
{
    assert forall|i: int, j: int| 0 <= i < j < after.len() implies (#[trigger] after[i]).end() <= (
    #[trigger] after[j]).space.base || after[j].end() <= after[i].space.base by {
        assert(before[i].end() <= before[j].space.base || before[j].end() <= before[i].space.base);
        assert(after[i].space.capacity() == before[i].space.capacity());
        assert(after[j].space.capacity() == before[j].space.capacity());
    }
}

/// Nodes that are divided among shards.
proof fn lemma_nodes(nodes: int, shards: int)
    requires
        0 < shards,
        3 <= nodes / shards,
        0 <= nodes < 0xffff_fffe,
    ensures
        nodes / shards <= nodes,
        nodes % shards > 0 ==> nodes / shards + 1 <= nodes,
{
    vstd::arithmetic::div_mod::lemma_fundamental_div_mod(nodes, shards);
    vstd::arithmetic::div_mod::lemma_mod_bound(nodes, shards);
    let part = nodes / shards;
    if shards > 1 {
        assert(part + 1 <= nodes) by (nonlinear_arith)
            requires
                nodes == shards * part + nodes % shards,
                nodes % shards >= 0,
                shards >= 2,
                part >= 3,
        ;
    } else {
        assert(nodes % 1 == 0);
        assert(nodes / 1 == nodes);
    }
}

/// A range comes from the first extent that serves the shard and has room; where none
/// has, there is none.
pub proof fn law_first_fit_is_taken(
    extents: Seq<ExtentView>,
    shard: Option<usize>,
    bytes: u64,
    from: int,
)
    requires
        0 <= from,
    ensures
        match first_fit(extents, shard, bytes, from) {
            Some(k) => {
                &&& from <= k < extents.len()
                &&& shard is None || shard == Some(extents[k].owner)
                &&& extents[k].space.fits(bytes as nat)
                &&& forall|i: int|
                    from <= i < k ==> !(#[trigger] extents[i]).space.fits(bytes as nat) || (shard
                        is Some && shard != Some(extents[i].owner))
            },
            None => forall|i: int|
                from <= i < extents.len() ==> !(#[trigger] extents[i]).space.fits(bytes as nat) || (
                shard is Some && shard != Some(extents[i].owner)),
        },
    decreases extents.len() - from,
{
    if from < extents.len() {
        law_first_fit_is_taken(extents, shard, bytes, from + 1);
    }
}

/// Only an extent of which nothing is out moves to another shard, and only one that may
/// serve what is wanted; the first such extent moves.
pub proof fn law_empty_extents_move(
    extents: Seq<ExtentView>,
    shard: usize,
    minimum_bytes: u64,
    from: int,
)
    requires
        0 <= from,
    ensures
        match first_movable(extents, shard, minimum_bytes, from) {
            Some(k) => {
                &&& from <= k < extents.len()
                &&& extents[k].owner == shard
                &&& extents[k].space.live.dom().len() == 0
                &&& extents[k].space.may_satisfy(minimum_bytes as nat)
            },
            None => forall|i: int|
                from <= i < extents.len() && (#[trigger] extents[i]).owner == shard
                    && extents[i].space.live.dom().len() == 0
                    ==> !extents[i].space.may_satisfy(minimum_bytes as nat),
        },
    decreases extents.len() - from,
{
    if from < extents.len() {
        law_empty_extents_move(extents, shard, minimum_bytes, from + 1);
    }
}

/// The figures of a shard are those of its extents: an extent of the shard adds its
/// own, an extent of another shard adds nothing.
pub proof fn law_shard_figures_add_up(extents: Seq<ExtentView>, shard: Option<usize>, more: ExtentView)
    ensures
        ({
            let before = space_of(extents, shard);
            let after = space_of(extents.push(more), shard);
            let mine = shard is None || shard == Some(more.owner);
            &&& !mine ==> after == before
            &&& mine && before.capacity_bytes + more.space.capacity() <= u64::MAX
                ==> after.capacity_bytes == before.capacity_bytes + more.space.capacity()
            &&& mine && 0 <= more.space.used() <= u64::MAX - before.used_bytes ==> after.used_bytes
                == before.used_bytes + more.space.used()
            &&& mine && more.space.largest * more.space.quantum <= u64::MAX
                ==> after.largest_free_region_bytes >= more.space.largest * more.space.quantum
                && after.largest_free_region_bytes >= before.largest_free_region_bytes
            &&& space_of(Seq::empty(), shard).capacity_bytes == 0
        }),
{
    assert(extents.push(more).drop_last() =~= extents);
    assert(more.space.largest * more.space.quantum >= 0) by (nonlinear_arith)
        requires
            more.space.largest >= 0,
            more.space.quantum >= 0,
    ;
}

/// Extents are of one size, or differ by one byte.
pub proof fn law_extents_are_of_one_size(capacity: u64, shards: int, left: int, right: int)
    requires
        0 < shards,
        0 <= left <= right < shards,
    ensures
        extent_size(capacity, shards, left) >= extent_size(capacity, shards, right),
        extent_size(capacity, shards, left) <= extent_size(capacity, shards, right) + 1,
{
}

} // verus!
