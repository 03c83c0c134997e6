//! The space of one segment: the extents that its region is split into.

use super::config::SegmentPoolConfig;
use super::offset_allocator::{
    is_quantum_for, lemma_quantum_units, range_taken, size_class, AllocatorView,
    OffsetAllocationHandle,
};
use super::shards::{
    capped, extent_size, extent_start, first_fit, holder_of, is_new_extent,
    law_extents_tile_the_region, lemma_extents_ordered, range_count, serves, space_of, with_extent,
    ExtentView, ShardedByteAllocator,
};
use super::stats::SegmentSpaceStats;
use vstd::prelude::*;

verus! {

/// The contents of a [`SegmentSpace`]: its extents in the order of their shards.
pub struct SpaceView {
    pub extents: Seq<AllocatorView>,
}

/// The number of extents that a region is split into. No extent is empty.
pub open spec fn part_count(config: SegmentPoolConfig, size: u64) -> int {
    if config.allocator_shards <= size {
        config.allocator_shards as int
    } else {
        size as int
    }
}

/// The number of extents that a pool allocates from: all, or that of its shard.
pub open spec fn own_count(config: SegmentPoolConfig, size: u64) -> int {
    match config.allocator_shard_index {
        None => part_count(config, size),
        Some(shard) => if shard < part_count(config, size) {
            1
        } else {
            0
        },
    }
}

/// The shard of an extent.
pub open spec fn shard_at(config: SegmentPoolConfig, k: int) -> int {
    match config.allocator_shard_index {
        None => k,
        Some(shard) => shard as int,
    }
}

/// Whether an extent lies where it should and has the nodes it should have.
pub open spec fn is_placed(space: AllocatorView, config: SegmentPoolConfig, size: u64, k: int) -> bool {
    let parts = part_count(config, size);
    let shard = shard_at(config, k);
    &&& space.base == extent_start(size, parts, shard)
    &&& is_quantum_for(space.quantum, extent_size(size, parts, shard) as nat)
    &&& space.units == extent_size(size, parts, shard) as nat / space.quantum
    &&& space.nodes == extent_size(config.max_allocator_nodes_per_segment as u64, parts, shard)
}

/// An extent that could not meet a request knows better now.
pub open spec fn missed_extent(space: AllocatorView, bytes: u64) -> AllocatorView {
    if space.may_satisfy(bytes as nat) {
        AllocatorView { hint: space.largest * space.quantum, ..space }
    } else {
        space
    }
}

/// Whether an extent is the same one, perhaps with other ranges out.
pub open spec fn same_place(before: AllocatorView, after: AllocatorView) -> bool {
    &&& after.base == before.base
    &&& after.quantum == before.quantum
    &&& after.units == before.units
    &&& after.nodes == before.nodes
}

/// The number of ranges that are out.
pub open spec fn ranges_of(extents: Seq<AllocatorView>) -> nat
    decreases extents.len(),
{
    if extents.len() == 0 {
        0
    } else {
        ranges_of(extents.drop_last()) + extents.last().live.dom().len()
    }
}

/// The figures of extents together.
pub open spec fn figures_of(extents: Seq<AllocatorView>) -> SegmentSpaceStats
    decreases extents.len(),
{
    if extents.len() == 0 {
        SegmentSpaceStats {
            capacity_bytes: 0,
            used_bytes: 0,
            available_bytes: 0,
            largest_free_region_bytes: 0,
        }
    } else {
        with_extent(figures_of(extents.drop_last()), extents.last())
    }
}

impl SpaceView {
    /// What holds of every space: its extents are in order and lie apart.
    pub open spec fn wf(self) -> bool {
        &&& forall|i: int| 0 <= i < self.extents.len() ==> (#[trigger] self.extents[i]).wf()
        &&& forall|i: int, j: int|
            0 <= i < j < self.extents.len() ==> lies_apart(
                #[trigger] self.extents[i],
                #[trigger] self.extents[j],
            )
    }

    /// Whether the extents are those of a pool's configuration.
    pub open spec fn fits_layout(self, config: SegmentPoolConfig, size: u64) -> bool {
        &&& self.extents.len() == own_count(config, size)
        &&& self.extents.len() > 0
        &&& forall|k: int|
            0 <= k < self.extents.len() ==> is_placed(#[trigger] self.extents[k], config, size, k)
    }

    /// Whether nothing is handed out.
    pub open spec fn is_fresh(self, config: SegmentPoolConfig, size: u64) -> bool {
        &&& self.fits_layout(config, size)
        &&& forall|k: int|
            0 <= k < self.extents.len() ==> {
                &&& (#[trigger] self.extents[k]).live == Map::<u32, u32>::empty()
                &&& self.extents[k].available == self.extents[k].units
                &&& self.extents[k].largest == size_class(self.extents[k].units)
                &&& self.extents[k].hint == self.extents[k].largest * self.extents[k].quantum
            }
    }

    /// Whether no range is out.
    pub open spec fn is_empty(self) -> bool {
        forall|k: int|
            0 <= k < self.extents.len() ==> (#[trigger] self.extents[k]).live.dom().len() == 0
    }

    /// The figures of the space.
    pub open spec fn figures(self) -> SegmentSpaceStats {
        figures_of(self.extents)
    }

    /// Whether a request of `bytes` can be met now.
    pub open spec fn fits(self, bytes: nat) -> bool {
        exists|i: int| 0 <= i < self.extents.len() && (#[trigger] self.extents[i]).fits(bytes)
    }

    /// Whether a request of `bytes` passes the checks made before the ranges are
    /// looked at.
    pub open spec fn may_satisfy(self, bytes: nat) -> bool {
        exists|i: int|
            0 <= i < self.extents.len() && (#[trigger] self.extents[i]).may_satisfy(bytes)
    }

    /// Whatever fits passes the checks made before.
    pub proof fn lemma_fits(self, bytes: nat)
        requires
            self.wf(),
        ensures
            self.fits(bytes) ==> self.may_satisfy(bytes),
    {
        if self.fits(bytes) {
            let i = choose|i: int|
                0 <= i < self.extents.len() && (#[trigger] self.extents[i]).fits(bytes);
            self.extents[i].lemma_fits(bytes);
        }
    }

    /// The first extent, from one on, that meets a request.
    pub open spec fn fit_from(self, bytes: u64, from: int) -> Option<int>
        decreases self.extents.len() - from,
    {
        if from < 0 || from >= self.extents.len() {
            None
        } else if self.extents[from].fits(bytes as nat) {
            Some(from)
        } else {
            self.fit_from(bytes, from + 1)
        }
    }

    /// The space after a request that it could not meet.
    pub open spec fn missed(self, bytes: u64) -> SpaceView {
        SpaceView {
            extents: self.extents.map_values(|extent: AllocatorView| missed_extent(extent, bytes)),
        }
    }

    /// Whether `after` is this space with one range more handed out, from the
    /// first extent that meets the request.
    pub open spec fn taken(
        self,
        after: SpaceView,
        handle: OffsetAllocationHandle,
        bytes: u64,
    ) -> bool {
        &&& after.extents.len() == self.extents.len()
        &&& self.fit_from(bytes, 0) matches Some(k) && {
            &&& 0 <= k < self.extents.len()
            &&& range_taken(self.extents[k], after.extents[k], handle, bytes)
            &&& same_place(self.extents[k], after.extents[k])
            &&& forall|i: int|
                0 <= i < k ==> (#[trigger] after.extents[i]) == missed_extent(
                    self.extents[i],
                    bytes,
                )
            &&& forall|i: int|
                k < i < self.extents.len() ==> (#[trigger] after.extents[i]) == self.extents[i]
        }
    }

    /// The extent, from one on, that a byte lies in.
    pub open spec fn holder(self, offset: u64, from: int) -> Option<int>
        decreases self.extents.len() - from,
    {
        if from < 0 || from >= self.extents.len() {
            None
        } else if self.extents[from].base <= offset < self.extents[from].base
            + self.extents[from].capacity() {
            Some(from)
        } else {
            self.holder(offset, from + 1)
        }
    }

    /// Whether a range is out.
    pub open spec fn holds(self, handle: OffsetAllocationHandle) -> bool {
        self.holder(handle.offset, 0) matches Some(k) && self.extents[k].live.contains_key(
            handle.unit,
        )
    }

    /// Whether `after` is this space with a range that was out free again.
    pub open spec fn returned(self, after: SpaceView, handle: OffsetAllocationHandle) -> bool {
        &&& after.extents.len() == self.extents.len()
        &&& self.holder(handle.offset, 0) matches Some(k) && {
            &&& 0 <= k < self.extents.len()
            &&& after.extents[k].live == self.extents[k].live.remove(handle.unit)
            &&& same_place(self.extents[k], after.extents[k])
            &&& forall|i: int|
                0 <= i < self.extents.len() && i != k ==> (#[trigger] after.extents[i])
                    == self.extents[i]
        }
    }

    /// Whether the extents are the same ones.
    pub open spec fn same_places(self, after: SpaceView) -> bool {
        &&& after.extents.len() == self.extents.len()
        &&& forall|i: int|
            0 <= i < self.extents.len() ==> same_place(
                #[trigger] self.extents[i],
                after.extents[i],
            )
    }

    /// Whether exactly the same ranges are out.
    pub open spec fn same_ranges(self, after: SpaceView) -> bool {
        &&& after.extents.len() == self.extents.len()
        &&& forall|i: int|
            0 <= i < self.extents.len() ==> (#[trigger] after.extents[i]).live
                == self.extents[i].live
    }
}

/// Whether two extents share no byte.
pub open spec fn lies_apart(left: AllocatorView, right: AllocatorView) -> bool {
    left.base + left.capacity() <= right.base || right.base + right.capacity() <= left.base
}

/// A request that is met is met by the first extent that it fits.
pub proof fn lemma_fit_from(space: SpaceView, bytes: u64, from: int)
    requires
        0 <= from <= space.extents.len(),
        forall|i: int| 0 <= i < from ==> !(#[trigger] space.extents[i]).fits(bytes as nat),
    ensures
        space.fit_from(bytes, from).is_some() == space.fits(bytes as nat),
        space.fit_from(bytes, from) matches Some(k) ==> from <= k < space.extents.len()
            && space.extents[k].fits(bytes as nat) && (forall|i: int|
            0 <= i < k ==> !(#[trigger] space.extents[i]).fits(bytes as nat)),
    decreases space.extents.len() - from,
{
    if from < space.extents.len() && !space.extents[from].fits(bytes as nat) {
        lemma_fit_from(space, bytes, from + 1);
    }
}

/// A byte of an extent lies in that extent alone.
pub proof fn lemma_holder(space: SpaceView, offset: u64, k: int, from: int)
    requires
        space.wf(),
        0 <= from <= k < space.extents.len(),
        space.extents[k].base <= offset < space.extents[k].base + space.extents[k].capacity(),
    ensures
        space.holder(offset, from) == Some(k),
    decreases k - from,
{
    if from < k {
        assert(lies_apart(space.extents[from], space.extents[k]));
        lemma_holder(space, offset, k, from + 1);
    }
}

/// A holder is an extent that the byte lies in.
pub proof fn lemma_holder_holds(space: SpaceView, offset: u64, from: int)
    requires
        0 <= from,
    ensures
        space.holder(offset, from) matches Some(k) ==> from <= k < space.extents.len()
            && space.extents[k].base <= offset < space.extents[k].base
            + space.extents[k].capacity(),
    decreases space.extents.len() - from,
{
    if from < space.extents.len() {
        lemma_holder_holds(space, offset, from + 1);
    }
}

/// Extents in the same places hold the same bytes.
pub proof fn lemma_same_holder(space: SpaceView, after: SpaceView, offset: u64, from: int)
    requires
        space.same_places(after),
        0 <= from,
    ensures
        after.holder(offset, from) == space.holder(offset, from),
    decreases space.extents.len() - from,
{
    if from < space.extents.len() {
        assert(same_place(space.extents[from], after.extents[from]));
        lemma_same_holder(space, after, offset, from + 1);
    }
}

/// Extents that stay in their places keep the layout, and lie apart as before.
pub proof fn lemma_same_layout(space: SpaceView, after: SpaceView)
    requires
        space.wf(),
        space.same_places(after),
        forall|i: int| 0 <= i < after.extents.len() ==> (#[trigger] after.extents[i]).wf(),
    ensures
        after.wf(),
        forall|config: SegmentPoolConfig, size: u64| #[trigger]
            space.fits_layout(config, size) ==> after.fits_layout(config, size),
        after.figures().capacity_bytes == space.figures().capacity_bytes,
{
    assert forall|i: int, j: int| 0 <= i < j < after.extents.len() implies lies_apart(
        #[trigger] after.extents[i],
        #[trigger] after.extents[j],
    ) by {
        assert(same_place(space.extents[i], after.extents[i]));
        assert(same_place(space.extents[j], after.extents[j]));
        assert(lies_apart(space.extents[i], space.extents[j]));
    }
    assert forall|config: SegmentPoolConfig, size: u64| #[trigger]
        space.fits_layout(config, size) implies after.fits_layout(config, size) by {
        assert forall|k: int| 0 <= k < after.extents.len() implies is_placed(
            #[trigger] after.extents[k],
            config,
            size,
            k,
        ) by {
            assert(same_place(space.extents[k], after.extents[k]));
            assert(is_placed(space.extents[k], config, size, k));
        }
    }
    lemma_same_capacity(space.extents, after.extents);
}

/// Extents in the same places have the same capacity together.
proof fn lemma_same_capacity(before: Seq<AllocatorView>, after: Seq<AllocatorView>)
    requires
        after.len() == before.len(),
        forall|i: int|
            0 <= i < before.len() ==> same_place(#[trigger] before[i], after[i]),
    ensures
        figures_of(after).capacity_bytes == figures_of(before).capacity_bytes,
    decreases before.len(),
{
    if before.len() > 0 {
        assert(same_place(before[before.len() - 1], after[before.len() - 1]));
        assert forall|i: int| 0 <= i < before.drop_last().len() implies same_place(
            #[trigger] before.drop_last()[i],
            after.drop_last()[i],
        ) by {
            assert(same_place(before[i], after[i]));
        }
        lemma_same_capacity(before.drop_last(), after.drop_last());
    }
}

/// A request that was not met leaves the extents where they are, with the same
/// ranges out.
pub proof fn lemma_missed(space: SpaceView, bytes: u64)
    requires
        space.wf(),
    ensures
        space.missed(bytes).wf(),
        space.same_places(space.missed(bytes)),
        space.same_ranges(space.missed(bytes)),
        forall|other: nat| #[trigger]
            space.missed(bytes).fits(other) == space.fits(other),
{
    let after = space.missed(bytes);
    assert forall|i: int| 0 <= i < after.extents.len() implies (#[trigger] after.extents[i]).wf()
        by {
        assert(space.extents[i].wf());
        assert(after.extents[i] == missed_extent(space.extents[i], bytes));
    }
    lemma_same_layout(space, after);
    assert forall|other: nat| #[trigger] after.fits(other) == space.fits(other) by {
        if space.fits(other) {
            let i = choose|i: int|
                0 <= i < space.extents.len() && (#[trigger] space.extents[i]).fits(other);
            assert(after.extents[i].fits(other));
        }
        if after.fits(other) {
            let i = choose|i: int|
                0 <= i < after.extents.len() && (#[trigger] after.extents[i]).fits(other);
            assert(space.extents[i].fits(other));
        }
    }
}

/// Handing out a range leaves the extents where they are, and the range is out.
pub proof fn lemma_taken(
    space: SpaceView,
    after: SpaceView,
    handle: OffsetAllocationHandle,
    bytes: u64,
)
    requires
        space.wf(),
        after.wf(),
        space.taken(after, handle, bytes),
    ensures
        space.fits(bytes as nat),
        space.same_places(after),
        after.holds(handle),
        after.holder(handle.offset, 0) == space.fit_from(bytes, 0),
        space.holder(handle.offset, 0) == space.fit_from(bytes, 0),
        !space.holds(handle),
{
    lemma_fit_from(space, bytes, 0);
    let k = space.fit_from(bytes, 0).unwrap();
    assert forall|i: int| 0 <= i < space.extents.len() implies same_place(
        #[trigger] space.extents[i],
        after.extents[i],
    ) by {
        if i < k {
            assert(after.extents[i] == missed_extent(space.extents[i], bytes));
        } else if i > k {
            assert(after.extents[i] == space.extents[i]);
        }
    }
    assert(after.extents[k].wf());
    let extent = space.extents[k];
    let units = extent.units_for(bytes as nat);
    assert(after.extents[k].live.contains_key(handle.unit));
    assert(units > 0);
    assert(units * extent.quantum > 0) by (nonlinear_arith)
        requires
            units > 0,
            extent.quantum > 0,
    ;
    assert(handle.unit * extent.quantum >= 0) by (nonlinear_arith);
    lemma_holder(after, handle.offset, k, 0);
    lemma_same_holder(space, after, handle.offset, 0);
}

/// Taking a range back leaves the extents where they are.
pub proof fn lemma_returned(space: SpaceView, after: SpaceView, handle: OffsetAllocationHandle)
    requires
        space.returned(after, handle),
    ensures
        space.same_places(after),
{
    let k = space.holder(handle.offset, 0).unwrap();
    assert forall|i: int| 0 <= i < space.extents.len() implies same_place(
        #[trigger] space.extents[i],
        after.extents[i],
    ) by {
        if i != k {
            assert(after.extents[i] == space.extents[i]);
        }
    }
}

/// Giving back what was handed out undoes it.
pub proof fn lemma_undone(
    space: SpaceView,
    middle: SpaceView,
    after: SpaceView,
    handle: OffsetAllocationHandle,
    bytes: u64,
)
    requires
        space.wf(),
        middle.wf(),
        space.taken(middle, handle, bytes),
        middle.returned(after, handle),
    ensures
        space.same_places(after),
        space.same_ranges(after),
{
    lemma_taken(space, middle, handle, bytes);
    lemma_returned(middle, after, handle);
    let k = space.fit_from(bytes, 0).unwrap();
    assert forall|i: int| 0 <= i < space.extents.len() implies same_place(
        #[trigger] space.extents[i],
        after.extents[i],
    ) by {
        assert(same_place(space.extents[i], middle.extents[i]));
        assert(same_place(middle.extents[i], after.extents[i]));
    }
    assert forall|i: int| 0 <= i < space.extents.len() implies (#[trigger] after.extents[i]).live
        == space.extents[i].live by {
        if i == k {
            assert(after.extents[k].live =~= space.extents[k].live);
        } else {
            assert(after.extents[i] == middle.extents[i]);
            if i < k {
                assert(middle.extents[i] == missed_extent(space.extents[i], bytes));
            } else {
                assert(middle.extents[i] == space.extents[i]);
            }
        }
    }
}

/// Missing twice is missing once.
pub proof fn lemma_missed_twice(space: SpaceView, bytes: u64)
    ensures
        space.missed(bytes).missed(bytes) == space.missed(bytes),
{
    assert(space.missed(bytes).missed(bytes).extents =~= space.missed(bytes).extents);
}

/// An extent lies in the region.
pub proof fn lemma_inside(space: SpaceView, config: SegmentPoolConfig, size: u64, k: int)
    requires
        space.wf(),
        space.fits_layout(config, size),
        size > 0,
        config.allocator_shards > 0,
        0 <= k < space.extents.len(),
    ensures
        space.extents[k].base + space.extents[k].capacity() <= size,
{
    let parts = part_count(config, size);
    let shard = shard_at(config, k);
    let extent = space.extents[k];
    assert(is_placed(extent, config, size, k));
    law_extents_tile_the_region(size, parts, shard);
    lemma_extents_ordered(size, parts, shard, parts);
    lemma_quantum_units(
        extent.quantum,
        extent_size(size, parts, shard) as nat,
    );
}

/// The space of one segment.
pub struct SegmentSpace {
    shards: ShardedByteAllocator,
}

/// The spaces of extents.
pub open spec fn spaces_of(extents: Seq<ExtentView>) -> Seq<AllocatorView> {
    extents.map_values(|extent: ExtentView| extent.space)
}

impl View for SegmentSpace {
    type V = SpaceView;

    closed spec fn view(&self) -> SpaceView {
        SpaceView { extents: spaces_of(self.shards@.extents) }
    }
}

proof fn lemma_same_figures(extents: Seq<ExtentView>)
    ensures
        space_of(extents, None) == figures_of(spaces_of(extents)),
    decreases extents.len(),
{
    if extents.len() > 0 {
        lemma_same_figures(extents.drop_last());
        assert(spaces_of(extents).drop_last() =~= spaces_of(extents.drop_last()));
    }
}

proof fn lemma_same_fit(space: SpaceView, extents: Seq<ExtentView>, bytes: u64, from: int)
    requires
        space.extents == spaces_of(extents),
        0 <= from,
    ensures
        space.fit_from(bytes, from) == first_fit(extents, None, bytes, from),
    decreases extents.len() - from,
{
    if from < extents.len() {
        lemma_same_fit(space, extents, bytes, from + 1);
    }
}

proof fn lemma_same_holders(space: SpaceView, extents: Seq<ExtentView>, offset: u64, from: int)
    requires
        space.extents == spaces_of(extents),
        0 <= from,
    ensures
        space.holder(offset, from) == holder_of(extents, offset, from),
    decreases extents.len() - from,
{
    if from < extents.len() {
        lemma_same_holders(space, extents, offset, from + 1);
    }
}

impl SegmentSpace {
    pub closed spec fn wf(&self) -> bool {
        self.shards.wf()
    }

    /// A space's own invariant, for callers that hold the space.
    pub proof fn lemma_wf(&self)
        requires
            self.wf(),
        ensures
            self@.wf(),
    {
        self.shards.lemma_wf();
        let extents = self.shards@.extents;
        assert forall|i: int| 0 <= i < self@.extents.len() implies (
        #[trigger] self@.extents[i]).wf() by {
            assert(extents[i].space.wf());
        }
        assert forall|i: int, j: int| 0 <= i < j < self@.extents.len() implies lies_apart(
            #[trigger] self@.extents[i],
            #[trigger] self@.extents[j],
        ) by {
            assert(extents[i].end() <= extents[j].space.base || extents[j].end()
                <= extents[i].space.base);
        }
    }

    /// Splits a region into extents, of which the pool allocates from all or from
    /// that of its shard, if there is one.
    pub fn new(config: SegmentPoolConfig, size: u64) -> (space: Option<Self>)
        requires
            config.is_valid(),
            size > 0,
        ensures
            space.is_some() == (own_count(config, size) > 0),
            space matches Some(made) ==> made.wf() && made@.is_fresh(config, size),
    {
        let shards: usize = config.allocator_shards;
        let nodes: u32 = config.max_allocator_nodes_per_segment;
        let parts: usize = if shards as u64 <= size {
            shards
        } else {
            size as usize
        };
        if let Some(shard) = config.allocator_shard_index {
            if shard >= parts {
                return None;
            }
        }
        proof {
            lemma_parts_have_nodes(nodes as int, shards as int, parts as int);
        }
        let shards = ShardedByteAllocator::new(size, parts, config.allocator_shard_index, nodes);
        let space = Self { shards };
        proof {
            let extents = shards@.extents;
            assert forall|k: int| 0 <= k < space@.extents.len() implies is_new_extent(
                #[trigger] space@.extents[k],
                extent_start(size, parts as int, shard_at(config, k)),
                extent_size(size, parts as int, shard_at(config, k)),
                extent_size(nodes as u64, parts as int, shard_at(config, k)),
            ) by {
                assert(space@.extents[k] == extents[k].space);
            }
        }
        Some(space)
    }

    /// Whether a request passes the checks made before the ranges are looked at.
    pub fn may_satisfy(&self, bytes: u64) -> (may: bool)
        requires
            self.wf(),
        ensures
            may == self@.may_satisfy(bytes as nat),
    {
        let may = self.shards.may_serve(None, bytes);
        proof {
            let extents = self.shards@.extents;
            assert forall|i: int| 0 <= i < extents.len() implies (#[trigger] extents[i]).space
                == self@.extents[i] by {}
            if may {
                let i = choose|i: int|
                    0 <= i < extents.len() && serves(
                        None,
                        (#[trigger] extents[i]).owner,
                    ) && extents[i].space.may_satisfy(bytes as nat);
                assert(self@.extents[i].may_satisfy(bytes as nat));
            }
            if self@.may_satisfy(bytes as nat) {
                let i = choose|i: int|
                    0 <= i < self@.extents.len() && (#[trigger] self@.extents[i]).may_satisfy(
                        bytes as nat,
                    );
                assert(extents[i].space.may_satisfy(bytes as nat));
            }
        }
        may
    }

    /// Hands out a range from the first extent that meets the request.
    pub fn allocate(&mut self, bytes: u64) -> (allocated: Option<OffsetAllocationHandle>)
        requires
            old(self).wf(),
        ensures
            final(self).wf(),
            allocated.is_some() == old(self)@.fits(bytes as nat),
            allocated is None ==> final(self)@ == old(self)@.missed(bytes),
            allocated matches Some(handle) ==> old(self)@.taken(final(self)@, handle, bytes),
    {
        let ghost before = self@;
        let ghost extents = self.shards@.extents;
        let allocated = self.shards.allocate_from(None, bytes);
        proof {
            let after = self.shards@.extents;
            lemma_same_fit(before, extents, bytes, 0);
            lemma_fit_from(before, bytes, 0);
            assert forall|i: int| 0 <= i < extents.len() implies #[trigger] self@.extents[i]
                == after[i].space && before.extents[i] == extents[i].space by {}
            assert forall|i: int| 0 <= i < extents.len() implies (#[trigger] extents[i].missed(
                None,
                bytes,
            )).space == missed_extent(before.extents[i], bytes) by {}
            if allocated is None {
                assert(self@.extents =~= before.missed(bytes).extents) by {
                    assert forall|i: int| 0 <= i < extents.len() implies self@.extents[i]
                        == #[trigger] before.missed(bytes).extents[i] by {
                        assert(after[i] == extents[i].missed(None, bytes));
                    }
                }
            } else {
                let k = before.fit_from(bytes, 0).unwrap();
                assert forall|i: int| 0 <= i < k implies (#[trigger] self@.extents[i])
                    == missed_extent(before.extents[i], bytes) by {
                    assert(after[i] == extents[i].missed(None, bytes));
                }
                assert forall|i: int| k < i < extents.len() implies (#[trigger] self@.extents[i])
                    == before.extents[i] by {
                    assert(after[i] == extents[i]);
                }
            }
        }
        allocated
    }

    /// Takes a range back. A range that is not out is left alone.
    pub fn release(&mut self, handle: OffsetAllocationHandle) -> (released: bool)
        requires
            old(self).wf(),
        ensures
            final(self).wf(),
            released == old(self)@.holds(handle),
            !released ==> final(self)@ == old(self)@,
            released ==> old(self)@.returned(final(self)@, handle),
    {
        let ghost before = self@;
        let ghost extents = self.shards@.extents;
        let released = self.shards.release(handle);
        proof {
            let after = self.shards@.extents;
            lemma_same_holders(before, extents, handle.offset, 0);
            lemma_holder_holds(before, handle.offset, 0);
            assert forall|i: int| 0 <= i < extents.len() implies #[trigger] self@.extents[i]
                == after[i].space && before.extents[i] == extents[i].space by {}
            if released {
                let k = before.holder(handle.offset, 0).unwrap();
                assert forall|i: int| 0 <= i < extents.len() && i != k implies (
                #[trigger] self@.extents[i]) == before.extents[i] by {
                    assert(after[i] == extents[i]);
                }
            }
        }
        released
    }

    /// Space diagnostics.
    pub fn stats(&self) -> (stats: SegmentSpaceStats)
        requires
            self.wf(),
        ensures
            stats == self@.figures(),
    {
        proof {
            lemma_same_figures(self.shards@.extents);
        }
        self.shards.stats()
    }

    /// The number of ranges that are out.
    pub fn live_allocations(&self) -> (count: u64)
        requires
            self.wf(),
        ensures
            count == capped(ranges_of(self@.extents) as int),
    {
        let count = self.shards.live_allocations();
        proof {
            lemma_same_ranges_count(self.shards@.extents);
        }
        count
    }
}

proof fn lemma_same_ranges_count(extents: Seq<ExtentView>)
    ensures
        range_count(extents) == ranges_of(spaces_of(extents)),
    decreases extents.len(),
{
    if extents.len() > 0 {
        lemma_same_ranges_count(extents.drop_last());
        assert(spaces_of(extents).drop_last() =~= spaces_of(extents.drop_last()));
    }
}

/// Fewer parts have no fewer nodes each.
proof fn lemma_parts_have_nodes(nodes: int, shards: int, parts: int)
    requires
        0 < parts <= shards,
        0 <= nodes < 0xffff_fffe,
        nodes / shards >= 3,
    ensures
        nodes / parts >= 3,
        parts <= u32::MAX,
{
    vstd::arithmetic::div_mod::lemma_div_is_ordered_by_denominator(nodes, parts, shards);
    vstd::arithmetic::div_mod::lemma_fundamental_div_mod(nodes, parts);
    vstd::arithmetic::div_mod::lemma_mod_bound(nodes, parts);
    assert(parts <= nodes) by (nonlinear_arith)
        requires
            nodes == parts * (nodes / parts) + nodes % parts,
            nodes % parts >= 0,
            nodes / parts >= 3,
            parts > 0,
    ;
}

/// The capacity of a space is some of its region, and not nothing.
pub proof fn lemma_capacity(space: SpaceView, config: SegmentPoolConfig, size: u64)
    requires
        space.wf(),
        space.fits_layout(config, size),
        size > 0,
        config.allocator_shards > 0,
    ensures
        0 < space.figures().capacity_bytes <= size,
{
    lemma_capacity_of(space.extents, config, size, space.extents.len() as int);
    assert(space.extents.take(space.extents.len() as int) =~= space.extents);
}

proof fn lemma_capacity_of(
    extents: Seq<AllocatorView>,
    config: SegmentPoolConfig,
    size: u64,
    n: int,
)
    requires
        0 <= n <= extents.len(),
        extents.len() == own_count(config, size),
        size > 0,
        config.allocator_shards > 0,
        forall|k: int| 0 <= k < extents.len() ==> (#[trigger] extents[k]).wf(),
        forall|k: int|
            0 <= k < extents.len() ==> is_placed(#[trigger] extents[k], config, size, k),
    ensures
        figures_of(extents.take(n)).capacity_bytes <= if n == 0 {
            0
        } else {
            extent_start(size, part_count(config, size), shard_at(config, n - 1)) + extent_size(
                size,
                part_count(config, size),
                shard_at(config, n - 1),
            )
        },
        n > 0 ==> 0 < figures_of(extents.take(n)).capacity_bytes <= size,
    decreases n,
{
    if n > 0 {
        let parts = part_count(config, size);
        let shard = shard_at(config, n - 1);
        lemma_capacity_of(extents, config, size, n - 1);
        assert(extents.take(n).drop_last() =~= extents.take(n - 1));
        assert(extents.take(n).last() == extents[n - 1]);
        let space = extents[n - 1];
        assert(is_placed(space, config, size, n - 1));
        assert(space.wf());
        law_extents_tile_the_region(size, parts, shard);
        lemma_extents_ordered(size, parts, shard, parts);
        if n > 1 {
            law_extents_tile_the_region(size, parts, shard - 1);
        }
        let part = extent_size(size, parts, shard);
        assert(part > 0);
        assert(space.units * space.quantum <= part && space.units > 0) by {
            lemma_quantum_units(space.quantum, part as nat);
        }
        assert(space.units * space.quantum > 0) by (nonlinear_arith)
            requires
                space.units > 0,
                space.quantum > 0,
        ;
    }
}

/// A range comes from the first extent with room.
pub proof fn law_first_extent_with_room(space: SpaceView, bytes: u64, from: int)
    requires
        0 <= from,
    ensures
        match space.fit_from(bytes, from) {
            Some(k) => {
                &&& from <= k < space.extents.len()
                &&& space.extents[k].fits(bytes as nat)
                &&& forall|i: int|
                    from <= i < k ==> !(#[trigger] space.extents[i]).fits(bytes as nat)
            },
            None => forall|i: int|
                from <= i < space.extents.len() ==> !(#[trigger] space.extents[i]).fits(
                    bytes as nat,
                ),
        },
    decreases space.extents.len() - from,
{
    if from < space.extents.len() {
        law_first_extent_with_room(space, bytes, from + 1);
    }
}

/// A range is given back to the extent in which it lies.
pub proof fn law_ranges_return_home(space: SpaceView, offset: u64, from: int)
    requires
        0 <= from,
    ensures
        match space.holder(offset, from) {
            Some(k) => from <= k < space.extents.len() && space.extents[k].base <= offset
                < space.extents[k].base + space.extents[k].capacity(),
            None => forall|i: int|
                from <= i < space.extents.len() ==> !((#[trigger] space.extents[i]).base <= offset
                    < space.extents[i].base + space.extents[i].capacity()),
        },
    decreases space.extents.len() - from,
{
    if from < space.extents.len() {
        law_ranges_return_home(space, offset, from + 1);
    }
}

/// A segment is split among as many shards as there are, but into no more parts than it
/// has bytes; a pool of one shard has its own part of each segment that has one.
pub proof fn law_segment_parts(config: SegmentPoolConfig, size: u64)
    ensures
        part_count(config, size) <= config.allocator_shards,
        part_count(config, size) <= size,
        part_count(config, size) == config.allocator_shards || part_count(config, size) == size,
        config.allocator_shard_index is None ==> own_count(config, size) == part_count(
            config,
            size,
        ),
        config.allocator_shard_index matches Some(shard) ==> own_count(config, size) == if shard
            < config.allocator_shards && shard < size {
            1int
        } else {
            0
        },
{
}

/// An extent that could not serve a request remembers it: it is not tried again for
/// that many bytes. What it can serve is tried as before.
pub proof fn law_misses_are_remembered(space: AllocatorView, bytes: u64, other: nat)
    requires
        space.wf(),
        !space.fits(bytes as nat),
    ensures
        ({
            let after = missed_extent(space, bytes);
            &&& bytes > 0 ==> !after.may_satisfy(bytes as nat)
            &&& space.fits(other) && space.may_satisfy(other) ==> after.may_satisfy(other)
            &&& after.live == space.live && after.fits(other) == space.fits(other)
        }),
{
}

/// A range takes whole units: as many as its bytes need, and no more.
pub proof fn law_ranges_take_whole_units(space: AllocatorView, bytes: nat)
    requires
        space.quantum > 0,
        bytes > 0,
    ensures
        bytes <= space.units_for(bytes) * space.quantum < bytes + space.quantum,
        space.units_for(bytes) >= 1,
{
    let quantum = space.quantum as int;
    let units = (bytes + quantum - 1) / quantum;
    vstd::arithmetic::div_mod::lemma_fundamental_div_mod(bytes + quantum - 1, quantum);
    vstd::arithmetic::div_mod::lemma_mod_bound(bytes + quantum - 1, quantum);
    assert(units * quantum == quantum * units) by (nonlinear_arith);
    assert(units >= 1) by (nonlinear_arith)
        requires
            quantum * units + (bytes + quantum - 1) % quantum == bytes + quantum - 1,
            (bytes + quantum - 1) % quantum < quantum,
            bytes > 0,
            quantum > 0,
    ;
}

} // verus!
