//! Byte-oriented allocation of ranges inside one contiguous region.

use crate::sums::{lemma_total_empty, lemma_total_insert, lemma_total_nonnegative,
    lemma_total_remove, total};
use std::collections::HashMap;
use vstd::prelude::*;

verus! {

/// An `offset_allocator::Allocator`: it hands out ranges of a region that is
/// measured in units, and takes them back.
#[verifier::external_body]
pub struct UnitAllocator {
    inner: offset_allocator::Allocator<u32>,
}

/// An `offset_allocator::Allocation`: the token of one range that was handed
/// out.
#[verifier::external_body]
pub struct UnitAllocation {
    inner: offset_allocator::Allocation<u32>,
}

/// The size in units of the region that an allocator manages.
pub uninterp spec fn unit_capacity(allocator: UnitAllocator) -> nat;

/// The number of nodes that an allocator was made with. One stands for each range
/// that is out and for each free region.
pub uninterp spec fn unit_nodes(allocator: UnitAllocator) -> nat;

/// The ranges that an allocator has handed out and not taken back: each range's
/// offset, with its size and the number of the node that stands for it.
pub uninterp spec fn unit_live(allocator: UnitAllocator) -> Map<u32, (u32, u32)>;

/// The total free space that the allocator reports.
pub uninterp spec fn unit_available(allocator: UnitAllocator) -> nat;

/// The largest free region that the allocator reports.
pub uninterp spec fn unit_largest(allocator: UnitAllocator) -> nat;

/// The offset that an allocation carries.
pub uninterp spec fn unit_offset(allocation: UnitAllocation) -> u32;

/// The node that an allocation carries.
pub uninterp spec fn unit_node(allocation: UnitAllocation) -> u32;

/// The sizes of the live ranges.
pub open spec fn unit_sizes(live: Map<u32, (u32, u32)>) -> Map<u32, int> {
    live.map_values(|range: (u32, u32)| range.0 as int)
}

/// Whether the range at `offset` of `size` units meets none of the live ranges.
pub open spec fn clear_of(live: Map<u32, (u32, u32)>, offset: int, size: int) -> bool {
    forall|other: u32| #[trigger]
        live.contains_key(other) ==> offset + size <= other || other + live[other].0 <= offset
}

/// The largest number of at most four significant bits that is not above `size`.
pub open spec fn size_class(size: nat) -> nat
    decreases size,
{
    if size < 16 {
        size
    } else {
        2 * size_class(size / 2)
    }
}

/// Whether a range could start at `offset`: regions start where the whole starts
/// or where a live range ends.
pub open spec fn follows(live: Map<u32, (u32, u32)>, offset: u32) -> bool {
    offset == 0 || exists|other: u32| #[trigger]
        live.contains_key(other) && other + live[other].0 == offset
}

/// The live ranges without their nodes.
pub open spec fn unit_lengths(live: Map<u32, (u32, u32)>) -> Map<u32, u32> {
    live.map_values(|range: (u32, u32)| range.0)
}

/// The lengths of ranges as numbers.
pub open spec fn lengths_of(live: Map<u32, u32>) -> Map<u32, int> {
    live.map_values(|units: u32| units as int)
}

/// Whether a stretch of the region meets no range that is out.
pub open spec fn is_free(live: Map<u32, u32>, units: nat, start: int, size: int) -> bool {
    &&& 0 <= start
    &&& 0 < size
    &&& start + size <= units
    &&& forall|other: u32| #[trigger]
        live.contains_key(other) ==> start + size <= other || other + live[other] <= start
}

/// Whether a figure is the largest size class of the free stretches, or zero where
/// nothing is free.
#[verifier::opaque]
pub open spec fn is_largest(live: Map<u32, u32>, units: nat, largest: nat) -> bool {
    &&& forall|start: int, size: int| #[trigger]
        is_free(live, units, start, size) ==> size_class(size as nat) <= largest
    &&& largest > 0 ==> exists|start: int, size: int| #[trigger]
        is_free(live, units, start, size) && largest == size_class(size as nat)
}

/// Whether an allocator has a node to spare, whatever the ranges leave free: there
/// is at most one free region more than there are ranges, and one node stays
/// unused.
pub open spec fn has_nodes(live: Map<u32, u32>, nodes: nat) -> bool {
    2 * live.dom().len() + 2 < nodes
}

/// Whether two figures are the free space and the largest free region that an
/// allocator reports: what the ranges leave, or zero while it is out of nodes.
pub open spec fn are_figures(
    live: Map<u32, u32>,
    units: nat,
    nodes: nat,
    available: nat,
    largest: nat,
) -> bool {
    ||| available == units - total(lengths_of(live)) && is_largest(live, units, largest)
    ||| available == 0 && largest == 0 && !has_nodes(live, nodes)
}

/// `Allocator::with_max_allocs`: the new allocator has `max_nodes` nodes and
/// manages `size` units, all of them free, and reports them all as free. It keeps
/// one node in use for a free region, so with at least three nodes it is not out
/// of nodes at the start. The largest region it reports is the whole, rounded
/// down to a size class.
#[verifier::external_body]
fn unit_allocator(size: u32, max_nodes: u32) -> (allocator: UnitAllocator)
    requires
        size > 0,
        3 <= max_nodes < 0xffff_fffe,
    ensures
        unit_capacity(allocator) == size,
        unit_nodes(allocator) == max_nodes,
        unit_live(allocator).dom() == Set::<u32>::empty(),
        unit_available(allocator) == size,
        unit_largest(allocator) == size_class(size as nat),
        are_figures(
            unit_lengths(unit_live(allocator)),
            unit_capacity(allocator),
            unit_nodes(allocator),
            unit_available(allocator),
            unit_largest(allocator),
        ),
{
    UnitAllocator { inner: offset_allocator::Allocator::with_max_allocs(size, max_nodes) }
}

/// `Allocator::allocate`: succeeds exactly when the request fits the largest
/// region that the allocator reports. It then hands out a range of exactly the
/// requested size inside the region, apart from every range handed out before,
/// at an offset that no other range has. Free regions that meet are one region, so
/// the range starts at the start of the whole or where another range ends. What is
/// left over of the region that served the request is smaller than that region, so
/// the largest region does not grow. What is free is then reported as it is, unless
/// the nodes have run out. A refused request changes nothing.
#[verifier::external_body]
fn unit_allocate(allocator: &mut UnitAllocator, size: u32) -> (allocation: Option<UnitAllocation>)
    requires
        size > 0,
    ensures
        unit_capacity(*final(allocator)) == unit_capacity(*old(allocator)),
        unit_nodes(*final(allocator)) == unit_nodes(*old(allocator)),
        allocation.is_some() == (size <= unit_largest(*old(allocator))),
        allocation is None ==> *final(allocator) == *old(allocator),
        allocation matches Some(range) ==> {
            &&& !unit_live(*old(allocator)).contains_key(unit_offset(range))
            &&& unit_live(*final(allocator)) == unit_live(*old(allocator)).insert(
                unit_offset(range),
                (size, unit_node(range)),
            )
            &&& clear_of(unit_live(*old(allocator)), unit_offset(range) as int, size as int)
            &&& follows(unit_live(*old(allocator)), unit_offset(range))
            &&& unit_offset(range) + size <= unit_capacity(*final(allocator))
            &&& total(unit_sizes(unit_live(*old(allocator)))) + size <= unit_capacity(
                *final(allocator),
            )
            &&& unit_largest(*final(allocator)) <= unit_largest(*old(allocator))
            &&& unit_largest(*final(allocator)) <= unit_available(*final(allocator))
            &&& unit_available(*final(allocator)) <= unit_capacity(*final(allocator))
            &&& are_figures(
                unit_lengths(unit_live(*final(allocator))),
                unit_capacity(*final(allocator)),
                unit_nodes(*final(allocator)),
                unit_available(*final(allocator)),
                unit_largest(*final(allocator)),
            )
        },
{
    allocator.inner.allocate(size).map(|inner| UnitAllocation { inner })
}

/// `Allocator::free`: takes a range back that is still out, and joins it with what
/// is free on both sides. What is free is then reported as it is, unless there are
/// too few nodes. With nothing left out, all of the region is one free region again and is reported as free, as it
/// was at the start.
#[verifier::external_body]
fn unit_free(allocator: &mut UnitAllocator, allocation: UnitAllocation)
    requires
        unit_live(*old(allocator)).contains_key(unit_offset(allocation)),
        unit_live(*old(allocator))[unit_offset(allocation)].1 == unit_node(allocation),
    ensures
        unit_capacity(*final(allocator)) == unit_capacity(*old(allocator)),
        unit_nodes(*final(allocator)) == unit_nodes(*old(allocator)),
        unit_live(*final(allocator)) == unit_live(*old(allocator)).remove(unit_offset(allocation)),
        unit_largest(*final(allocator)) <= unit_available(*final(allocator)),
        unit_available(*final(allocator)) <= unit_capacity(*final(allocator)),
        unit_live(*final(allocator)).dom() == Set::<u32>::empty() ==> unit_available(
            *final(allocator),
        ) == unit_capacity(*final(allocator)) && unit_largest(*final(allocator)) == size_class(
            unit_capacity(*final(allocator)),
        ),
        are_figures(
            unit_lengths(unit_live(*final(allocator))),
            unit_capacity(*final(allocator)),
            unit_nodes(*final(allocator)),
            unit_available(*final(allocator)),
            unit_largest(*final(allocator)),
        ),
{
    allocator.inner.free(allocation.inner)
}

/// `Allocator::storage_report`: the total free space and the largest free
/// region.
#[verifier::external_body]
fn unit_report(allocator: &UnitAllocator) -> (report: (u32, u32))
    ensures
        report.0 == unit_available(*allocator),
        report.1 == unit_largest(*allocator),
{
    let report = allocator.inner.storage_report();
    (report.total_free_space, report.largest_free_region)
}

/// The public field `offset` of an `Allocation`.
#[verifier::external_body]
fn unit_allocation_offset(allocation: &UnitAllocation) -> (offset: u32)
    ensures
        offset == unit_offset(*allocation),
{
    allocation.inner.offset
}

/// `Allocator::allocation_size`: the size of a range that is still out.
#[verifier::external_body]
fn unit_allocation_size(allocator: &UnitAllocator, allocation: &UnitAllocation) -> (size: u32)
    requires
        unit_live(*allocator).contains_key(unit_offset(*allocation)),
        unit_live(*allocator)[unit_offset(*allocation)].1 == unit_node(*allocation),
    ensures
        size == unit_live(*allocator)[unit_offset(*allocation)].0,
{
    allocator.inner.allocation_size(allocation.inner)
}

/// What a [`ByteAllocator`] manages and what it has handed out, in units of
/// `quantum` bytes.
pub struct AllocatorView {
    /// The byte offset of the first unit.
    pub base: nat,
    /// The number of bytes in a unit.
    pub quantum: nat,
    /// The number of units.
    pub units: nat,
    /// The number of nodes for ranges and free regions.
    pub nodes: nat,
    /// The live ranges: the unit at which each starts, and its length in units.
    pub live: Map<u32, u32>,
    /// The largest request, in units, that can be met.
    pub largest: nat,
    /// The free space, in units, that is reported.
    pub available: nat,
    /// Upper bound in bytes of the largest request that can be met.
    pub hint: nat,
}

impl AllocatorView {
    /// The managed capacity in bytes.
    pub open spec fn capacity(self) -> nat {
        self.units * self.quantum
    }

    /// The number of units that a request of `bytes` takes.
    pub open spec fn units_for(self, bytes: nat) -> nat {
        ((bytes + self.quantum - 1) / self.quantum as int) as nat
    }

    /// The lengths of the live ranges in units.
    pub open spec fn lengths(self) -> Map<u32, int> {
        lengths_of(self.live)
    }

    /// The bytes in live ranges.
    pub open spec fn used(self) -> int {
        total(self.lengths()) * self.quantum
    }

    /// Whether a free region could start at a unit: it is the first one, or a
    /// live range ends there.
    pub open spec fn starts_region(self, unit: u32) -> bool {
        unit == 0 || exists|other: u32| #[trigger]
            self.live.contains_key(other) && other + self.live[other] == unit
    }

    /// The byte offset of a unit.
    pub open spec fn byte_offset(self, unit: u32) -> int {
        self.base + unit * self.quantum
    }

    /// Whether a request of `bytes` can be met now.
    pub open spec fn fits(self, bytes: nat) -> bool {
        0 < bytes && bytes <= self.largest * self.quantum
    }

    /// Whether a request of `bytes` passes the checks made before the ranges
    /// are looked at.
    pub open spec fn may_satisfy(self, bytes: nat) -> bool {
        bytes != 0 && bytes <= self.capacity() && bytes <= self.hint
    }

    /// Whatever fits passes the checks made before.
    pub proof fn lemma_fits(self, bytes: nat)
        requires
            self.wf(),
        ensures
            self.fits(bytes) ==> self.may_satisfy(bytes),
    {
        lemma_scale(self.largest as int, self.units as int, self.quantum as int);
    }

    /// What holds of every reachable state: the live ranges lie in the region,
    /// none is empty, and no two of them meet.
    pub open spec fn wf(self) -> bool {
        &&& self.quantum > 0
        &&& self.base + self.capacity() <= u64::MAX
        &&& self.units <= u32::MAX
        &&& self.live.dom().finite()
        &&& self.largest <= self.available <= self.units
        &&& self.largest * self.quantum <= self.hint
        &&& self.used() <= self.capacity()
        &&& self.live.dom().len() == 0 ==> self.available == self.units && self.largest
            == size_class(self.units)
        &&& are_figures(self.live, self.units, self.nodes, self.available, self.largest)
        &&& forall|start: u32| #[trigger]
            self.live.contains_key(start) ==> self.live[start] > 0 && start + self.live[start]
                <= self.units
        &&& forall|left: u32, right: u32|
            #![trigger self.live.contains_key(left), self.live.contains_key(right)]
            self.live.contains_key(left) && self.live.contains_key(right) && left < right ==> left
                + self.live[left] <= right
    }
}

/// Whether `quantum` is the smallest power of two in which `capacity` can be
/// counted with 32 bits.
pub open spec fn is_quantum_for(quantum: nat, capacity: nat) -> bool {
    &&& exists|shift: nat| quantum == #[trigger] vstd::arithmetic::power2::pow2(shift)
    &&& capacity / quantum <= u32::MAX
    &&& quantum > 1 ==> capacity / ((quantum / 2) as nat) > u32::MAX
}

/// A region that is not empty has a unit, and its units lie in it.
pub proof fn lemma_quantum_units(quantum: nat, capacity: nat)
    requires
        is_quantum_for(quantum, capacity),
        capacity > 0,
    ensures
        quantum > 0,
        0 < capacity / quantum,
        (capacity / quantum) * quantum <= capacity,
{
    let shift = choose|shift: nat| quantum == #[trigger] vstd::arithmetic::power2::pow2(shift);
    vstd::arithmetic::power2::lemma_pow2_pos(shift);
    vstd::arithmetic::div_mod::lemma_fundamental_div_mod(capacity as int, quantum as int);
    vstd::arithmetic::div_mod::lemma_mod_bound(capacity as int, quantum as int);
    if quantum > 1 {
        let half = quantum / 2;
        vstd::arithmetic::div_mod::lemma_fundamental_div_mod(capacity as int, half as int);
        vstd::arithmetic::div_mod::lemma_mod_bound(capacity as int, half as int);
        if capacity < quantum {
            let times = capacity / half;
            assert(half * times <= capacity);
            assert(times <= 2) by (nonlinear_arith)
                requires
                    half * times <= capacity,
                    capacity < quantum,
                    quantum <= 2 * half + 1,
                    half >= 1,
            ;
        } else {
            assert(capacity / quantum > 0) by (nonlinear_arith)
                requires
                    capacity >= quantum,
                    quantum > 0,
            ;
        }
    } else {
        assert(capacity / 1 == capacity);
    }
    assert((capacity / quantum) * quantum == quantum * (capacity / quantum)) by (nonlinear_arith);
}

/// Byte-oriented allocator over one region.
///
/// The allocator below counts in units of 32 bits. Regions larger than 4 GiB
/// use the smallest power-of-two byte quantum that can represent their full
/// range. Allocation, binning, and coalescing remain with it.
pub struct ByteAllocator {
    inner: UnitAllocator,
    allocations: HashMap<u32, UnitAllocation>,
    base: u64,
    quantum: u64,
    managed_capacity: u64,
    used_bytes: u64,
    /// Conservative upper bound for the largest request the binning algorithm
    /// can currently satisfy. A stale high value only takes the slow path;
    /// allocation failures tighten it while frees raise it as needed.
    largest_free_region_hint: u64,
}

/// One range handed out by a [`ByteAllocator`].
#[derive(Debug, Eq, PartialEq, Structural)]
pub struct OffsetAllocationHandle {
    /// The unit of the allocator at which the range starts.
    pub unit: u32,
    pub offset: u64,
    pub requested_bytes: u64,
    pub reserved_bytes: u64,
}

/// Space diagnostics of one allocator.
#[derive(Clone, Copy, Debug, Eq, PartialEq, Structural)]
pub struct AllocatorStats {
    pub capacity: u64,
    pub used_bytes: u64,
    pub available_bytes: u64,
    pub largest_free_region: u64,
    pub live_allocations: u64,
}

impl View for ByteAllocator {
    type V = AllocatorView;

    closed spec fn view(&self) -> AllocatorView {
        AllocatorView {
            base: self.base as nat,
            quantum: self.quantum as nat,
            units: unit_capacity(self.inner),
            nodes: unit_nodes(self.inner),
            live: unit_lengths(unit_live(self.inner)),
            largest: unit_largest(self.inner),
            available: unit_available(self.inner),
            hint: self.largest_free_region_hint as nat,
        }
    }
}

/// A size class is at most the size, and misses less than a ninth of it.
pub proof fn lemma_size_class(size: nat)
    ensures
        size_class(size) <= size,
        9 * size_class(size) >= 8 * size,
    decreases size,
{
    if size >= 16 {
        lemma_size_class(size / 2);
        lemma_size_class_scaled(size / 2);
    }
}

/// Sizes below a size class of eight or more lie close to it.
proof fn lemma_size_class_scaled(size: nat)
    requires
        size >= 8,
    ensures
        9 * size_class(size) >= 8 * (size + 1),
    decreases size,
{
    if size >= 16 {
        lemma_size_class_scaled(size / 2);
    }
}

/// Scaling keeps the order.
proof fn lemma_scale(left: int, right: int, factor: int)
    requires
        left <= right,
        factor >= 0,
    ensures
        left * factor <= right * factor,
{
    assert(left * factor <= right * factor) by (nonlinear_arith)
        requires
            left <= right,
            factor >= 0,
    ;
}

/// A request fits a number of units exactly when its bytes fit theirs.
proof fn lemma_units_for(bytes: int, quantum: int, units: int)
    requires
        quantum > 0,
        bytes >= 0,
    ensures
        (bytes + quantum - 1) / quantum <= units <==> bytes <= units * quantum,
        (bytes + quantum - 1) / quantum >= 0,
        bytes > 0 ==> (bytes + quantum - 1) / quantum > 0,
        (bytes + quantum - 1) / quantum == bytes / quantum + (if bytes % quantum == 0 {
            0int
        } else {
            1
        }),
{
    let rounded = (bytes + quantum - 1) / quantum;
    vstd::arithmetic::div_mod::lemma_fundamental_div_mod(bytes, quantum);
    vstd::arithmetic::div_mod::lemma_mod_bound(bytes, quantum);
    let whole = bytes / quantum;
    let part = bytes % quantum;
    let extra = if part == 0 { 0int } else { 1 };
    assert(bytes + quantum - 1 == quantum * (whole + extra) + (if part == 0 {
        quantum - 1
    } else {
        part - 1
    })) by (nonlinear_arith)
        requires
            bytes == quantum * whole + part,
            extra == (if part == 0 { 0int } else { 1 }),
    ;
    vstd::arithmetic::div_mod::lemma_fundamental_div_mod_converse(
        bytes + quantum - 1,
        quantum,
        whole + extra,
        if part == 0 { quantum - 1 } else { part - 1 },
    );
    vstd::arithmetic::div_mod::lemma_div_pos_is_pos(bytes, quantum);
    if whole + extra <= units {
        assert(bytes <= units * quantum) by (nonlinear_arith)
            requires
                whole + extra <= units,
                bytes == quantum * whole + part,
                0 <= part < quantum,
                extra == (if part == 0 { 0int } else { 1 }),
        ;
    } else {
        assert(bytes > units * quantum) by (nonlinear_arith)
            requires
                whole + extra >= units + 1,
                bytes == quantum * whole + part,
                0 <= part < quantum,
                extra == (if part == 0 { 0int } else { 1 }),
        ;
    }
    if bytes > 0 && whole == 0 {
        assert(part > 0);
    }
}

impl ByteAllocator {
    /// What ties the fields together.
    pub closed spec fn wf(&self) -> bool {
        &&& self@.wf()
        &&& self.managed_capacity == self@.capacity()
        &&& self.used_bytes == self@.used()
        &&& self.allocations@.dom() == unit_live(self.inner).dom()
        &&& forall|start: u32| #[trigger]
            self.allocations@.contains_key(start) ==> {
                &&& unit_offset(self.allocations@[start]) == start
                &&& unit_node(self.allocations@[start]) == unit_live(self.inner)[start].1
            }
    }

    /// A state's own invariant, for callers that hold the allocator.
    pub proof fn lemma_wf(&self)
        requires
            self.wf(),
        ensures
            self@.wf(),
    {
    }

    pub fn new(capacity: u64, max_allocator_nodes: u32) -> (allocator: Self)
        requires
            capacity > 0,
            3 <= max_allocator_nodes < 0xffff_fffe,
        ensures
            allocator.wf(),
            allocator@.base == 0,
            is_quantum_for(allocator@.quantum, capacity as nat),
            allocator@.units == capacity as nat / allocator@.quantum,
            allocator@.nodes == max_allocator_nodes,
            allocator@.live == Map::<u32, u32>::empty(),
            allocator@.available == allocator@.units,
            allocator@.hint == allocator@.largest * allocator@.quantum,
    {
        Self::new_at(0, capacity, max_allocator_nodes)
    }

    /// An allocator whose ranges start at byte `base`.
    pub fn new_at(base: u64, capacity: u64, max_allocator_nodes: u32) -> (allocator: Self)
        requires
            capacity > 0,
            base + capacity <= u64::MAX,
            3 <= max_allocator_nodes < 0xffff_fffe,
        ensures
            allocator.wf(),
            allocator@.base == base,
            is_quantum_for(allocator@.quantum, capacity as nat),
            allocator@.units == capacity as nat / allocator@.quantum,
            allocator@.nodes == max_allocator_nodes,
            allocator@.live == Map::<u32, u32>::empty(),
            allocator@.available == allocator@.units,
            allocator@.hint == allocator@.largest * allocator@.quantum,
    {
        let mut quantum: u64 = 1;
        proof {
            vstd::arithmetic::power2::lemma2_to64();
        }
        let ghost mut shift: nat = 0;
        while capacity / quantum > 0xffff_ffff
            invariant
                0 < quantum < 0x2_0000_0000,
                capacity > 0,
                quantum == vstd::arithmetic::power2::pow2(shift),
                quantum > 1 ==> capacity / ((quantum / 2) as u64) > 0xffff_ffff,
            decreases 0x2_0000_0000 - quantum,
        {
            assert(quantum < 0x1_0000_0000) by (nonlinear_arith)
                requires
                    capacity / quantum > 0xffff_ffff,
                    capacity <= 0xffff_ffff_ffff_ffff,
                    0 < quantum,
            ;
            proof {
                vstd::arithmetic::power2::lemma_pow2_unfold((shift + 1) as nat);
                shift = shift + 1;
            }
            quantum = quantum * 2;
        }
        let units: u32 = (capacity / quantum) as u32;
        proof {
            assert(units > 0) by {
                if quantum > 1 {
                    assert(capacity / quantum > 0) by (nonlinear_arith)
                        requires
                            capacity / ((quantum / 2) as u64) > 0xffff_ffff,
                            quantum > 1,
                            quantum < 0x2_0000_0000,
                    ;
                } else {
                    assert(capacity / 1 == capacity);
                }
            }
            assert(units * quantum <= capacity) by (nonlinear_arith)
                requires
                    units == capacity / quantum,
                    quantum > 0,
            ;
        }
        let inner = unit_allocator(units, max_allocator_nodes);
        let report = unit_report(&inner);
        let allocator = Self {
            managed_capacity: units as u64 * quantum,
            largest_free_region_hint: {
                proof {
                    lemma_size_class(units as nat);
                    lemma_scale(unit_largest(inner) as int, units as int, quantum as int);
                }
                report.1 as u64 * quantum
            },
            inner,
            allocations: HashMap::new(),
            base,
            quantum,
            used_bytes: 0,
        };
        proof {
            assert(allocator@.live =~= Map::<u32, u32>::empty());
            assert(allocator@.lengths() =~= Map::<u32, int>::empty());
            lemma_total_empty::<u32>();
            assert(allocator.allocations@.dom() =~= unit_live(allocator.inner).dom());
            assert(allocator@.used() == 0);
        }
        allocator
    }

    /// Whether a byte lies in the region.
    pub fn covers(&self, offset: u64) -> (covers: bool)
        requires
            self.wf(),
        ensures
            covers == (self@.base <= offset < self@.base + self@.capacity()),
    {
        self.base <= offset && offset - self.base < self.managed_capacity
    }

    /// Whether a request passes the checks made before the allocator is asked.
    /// Every request that can be met passes.
    pub fn may_satisfy(&self, requested_bytes: u64) -> (may: bool)
        requires
            self.wf(),
        ensures
            may == self@.may_satisfy(requested_bytes as nat),
            self@.fits(requested_bytes as nat) ==> may,
    {
        proof {
            lemma_scale(self@.largest as int, self@.units as int, self@.quantum as int);
        }
        requested_bytes != 0 && requested_bytes <= self.managed_capacity && requested_bytes
            <= self.largest_free_region_hint
    }

    /// Hands out a range for a request that fits.
    pub fn allocate(&mut self, requested_bytes: u64) -> (allocated: Option<OffsetAllocationHandle>)
        requires
            old(self).wf(),
        ensures
            final(self).wf(),
            final(self)@.base == old(self)@.base,
            final(self)@.quantum == old(self)@.quantum,
            final(self)@.units == old(self)@.units,
            final(self)@.nodes == old(self)@.nodes,
            allocated.is_some() == old(self)@.fits(requested_bytes as nat),
            allocated is None ==> final(self)@ == (AllocatorView {
                hint: if old(self)@.may_satisfy(requested_bytes as nat) {
                    old(self)@.largest * old(self)@.quantum
                } else {
                    old(self)@.hint
                },
                ..old(self)@
            }),
            allocated matches Some(handle) ==> range_taken(
                old(self)@,
                final(self)@,
                handle,
                requested_bytes,
            ),
    {
        if !self.may_satisfy(requested_bytes) {
            return None;
        }
        self.allocate_after_precheck(requested_bytes)
    }

    /// Hands out a range after the caller has checked [`Self::may_satisfy`].
    /// The hint is only an optimization, so this can still fail after a
    /// successful precheck; the hint is then lowered to what can be met.
    pub fn allocate_after_precheck(&mut self, requested_bytes: u64) -> (allocated: Option<
        OffsetAllocationHandle,
    >)
        requires
            old(self).wf(),
            requested_bytes != 0,
            requested_bytes <= old(self)@.capacity(),
        ensures
            final(self).wf(),
            final(self)@.base == old(self)@.base,
            final(self)@.quantum == old(self)@.quantum,
            final(self)@.units == old(self)@.units,
            final(self)@.nodes == old(self)@.nodes,
            allocated.is_some() == old(self)@.fits(requested_bytes as nat),
            allocated is None ==> final(self)@ == (AllocatorView {
                hint: old(self)@.largest * old(self)@.quantum,
                ..old(self)@
            }),
            allocated matches Some(handle) ==> range_taken(
                old(self)@,
                final(self)@,
                handle,
                requested_bytes,
            ),
    {
        let ghost before = self@;
        let ghost before_inner = self.inner;
        proof {
            lemma_units_for(requested_bytes as int, self.quantum as int, before.units as int);
            lemma_units_for(requested_bytes as int, self.quantum as int, before.largest as int);
        }
        let whole: u64 = requested_bytes / self.quantum;
        let units: u64 = if requested_bytes % self.quantum == 0 { whole } else { whole + 1 };
        let units: u32 = units as u32;
        let allocation = match unit_allocate(&mut self.inner, units) {
            Some(allocation) => allocation,
            None => {
                self.refresh_largest_free_region();
                return None;
            },
        };
        let start: u32 = unit_allocation_offset(&allocation);
        let reserved_units: u32 = unit_allocation_size(&self.inner, &allocation);
        proof {
            let live = unit_live(before_inner);
            assert(before.lengths() =~= unit_sizes(live));
            assert(self@.live =~= before.live.insert(start, units));
            assert(before.starts_region(start)) by {
                if start != 0 {
                    let other = choose|other: u32| #[trigger]
                        live.contains_key(other) && other + live[other].0 == start;
                    assert(before.live.contains_key(other));
                }
            }
            assert(self@.lengths() =~= before.lengths().insert(start, units as int));
            lemma_total_insert(before.lengths(), start, units as int);
            let quantum = self.quantum as int;
            let sum = total(before.lengths());
            lemma_scale(sum + units, self@.units as int, quantum);
            assert((sum + units) * quantum == sum * quantum + units * quantum) by (nonlinear_arith);
            lemma_scale(start + units, self@.units as int, quantum);
            assert((start + units) * quantum == start * quantum + units * quantum)
                by (nonlinear_arith);
            assert(0 <= start * quantum && 0 <= units * quantum) by (nonlinear_arith)
                requires
                    start >= 0,
                    units >= 0,
                    quantum > 0,
            ;
            lemma_scale(self@.largest as int, before.largest as int, quantum);
            lemma_units_for(requested_bytes as int, quantum, units as int);
            assert(self@.live.dom().contains(start));
            assert(self@.live.dom().len() > 0) by {
                if self@.live.dom().len() == 0 {
                    assert(self@.live.dom() =~= Set::empty());
                }
            }
        }
        let reserved_bytes: u64 = reserved_units as u64 * self.quantum;
        self.used_bytes = self.used_bytes + reserved_bytes;
        self.allocations.insert(start, allocation);
        let offset: u64 = self.base + start as u64 * self.quantum;
        proof {
            assert(self.allocations@.dom() =~= unit_live(self.inner).dom());
        }
        Some(OffsetAllocationHandle { unit: start, offset, requested_bytes, reserved_bytes })
    }

    /// Takes a range back that is still out; a range that is not is left alone.
    pub fn release(&mut self, handle: OffsetAllocationHandle) -> (released: bool)
        requires
            old(self).wf(),
        ensures
            final(self).wf(),
            released == old(self)@.live.contains_key(handle.unit),
            !released ==> final(self)@ == old(self)@,
            released ==> {
                &&& final(self)@.base == old(self)@.base
                &&& final(self)@.quantum == old(self)@.quantum
                &&& final(self)@.units == old(self)@.units
                &&& final(self)@.nodes == old(self)@.nodes
                &&& final(self)@.live == old(self)@.live.remove(handle.unit)
                &&& final(self)@.hint == if old(self)@.hint < old(self)@.capacity() {
                    final(self)@.largest * final(self)@.quantum
                } else {
                    old(self)@.hint
                }
            },
    {
        let ghost before = self@;
        let ghost before_inner = self.inner;
        let start: u32 = handle.unit;
        match self.allocations.remove(&start) {
            None => {
                proof {
                    assert(self.allocations@.dom() =~= unit_live(self.inner).dom());
                }
                false
            },
            Some(allocation) => {
                let reserved_units: u32 = unit_allocation_size(&self.inner, &allocation);
                unit_free(&mut self.inner, allocation);
                proof {
                    let live = unit_live(before_inner);
                    assert(before.lengths() =~= unit_sizes(live));
                    assert(self@.live =~= before.live.remove(start));
                    assert(self@.lengths() =~= before.lengths().remove(start));
                    assert(before.lengths()[start] == reserved_units);
                    lemma_total_remove(before.lengths(), start);
                    lemma_total_nonnegative(self@.lengths());
                    let quantum = self.quantum as int;
                    let sum = total(self@.lengths());
                    assert((sum + reserved_units) * quantum == sum * quantum + reserved_units
                        * quantum) by (nonlinear_arith);
                    assert(0 <= sum * quantum) by (nonlinear_arith)
                        requires
                            sum >= 0,
                            quantum > 0,
                    ;
                    assert(self.allocations@.dom() =~= unit_live(self.inner).dom());
                    if self@.live.dom().len() == 0 {
                        assert(self@.live.dom() =~= Set::empty());
                        assert(unit_live(self.inner).dom() =~= self@.live.dom());
                        assert(unit_live(self.inner) =~= Map::<u32, (u32, u32)>::empty());
                    }
                    lemma_scale(self@.largest as int, self@.units as int, quantum);
                }
                self.used_bytes = self.used_bytes - reserved_units as u64 * self.quantum;
                if self.largest_free_region_hint < self.managed_capacity {
                    self.refresh_largest_free_region();
                }
                true
            },
        }
    }

    /// Sets the hint to the largest request that can be met now.
    fn refresh_largest_free_region(&mut self)
        requires
            old(self)@.quantum > 0,
            old(self)@.largest <= old(self)@.units,
            old(self).managed_capacity == old(self)@.capacity(),
        ensures
            final(self)@ == (AllocatorView {
                hint: old(self)@.largest * old(self)@.quantum,
                ..old(self)@
            }),
            final(self).inner == old(self).inner,
            final(self).allocations == old(self).allocations,
            final(self).used_bytes == old(self).used_bytes,
            final(self).managed_capacity == old(self).managed_capacity,
    {
        let report = unit_report(&self.inner);
        proof {
            lemma_scale(self@.largest as int, self@.units as int, self@.quantum as int);
        }
        self.largest_free_region_hint = report.1 as u64 * self.quantum;
    }

    /// Space diagnostics.
    pub fn stats(&self) -> (stats: AllocatorStats)
        requires
            self.wf(),
        ensures
            stats.capacity == self@.capacity(),
            stats.used_bytes == self@.used(),
            stats.available_bytes == self@.available * self@.quantum,
            stats.largest_free_region == self@.largest * self@.quantum,
            stats.live_allocations == self@.live.dom().len(),
            stats.available_bytes == stats.capacity - stats.used_bytes || (stats.available_bytes
                == 0 && stats.largest_free_region == 0),
            2 * stats.live_allocations + 2 < self@.nodes ==> stats.available_bytes
                == stats.capacity - stats.used_bytes,
    {
        let report = unit_report(&self.inner);
        proof {
            lemma_scale(self@.largest as int, self@.units as int, self@.quantum as int);
            lemma_scale(self@.available as int, self@.units as int, self@.quantum as int);
            assert(self@.live.dom() =~= self.allocations@.dom());
            assert(self@.lengths() =~= unit_sizes(unit_live(self.inner)));
            assert((self@.units - total(self@.lengths())) * self@.quantum == self@.units
                * self@.quantum - total(self@.lengths()) * self@.quantum) by (nonlinear_arith);
            assert(0 * self@.quantum == 0);
        }
        AllocatorStats {
            capacity: self.managed_capacity,
            used_bytes: self.used_bytes,
            available_bytes: report.0 as u64 * self.quantum,
            largest_free_region: report.1 as u64 * self.quantum,
            live_allocations: self.allocations.len() as u64,
        }
    }
}

/// How a state and its successor differ when a range was handed out.
pub open spec fn range_taken(
    before: AllocatorView,
    after: AllocatorView,
    handle: OffsetAllocationHandle,
    requested_bytes: u64,
) -> bool {
    &&& !before.live.contains_key(handle.unit)
    &&& before.starts_region(handle.unit)
    &&& after.live == before.live.insert(
        handle.unit,
        before.units_for(requested_bytes as nat) as u32,
    )
    &&& after.hint == before.hint
    &&& handle.offset == before.byte_offset(handle.unit)
    &&& handle.requested_bytes == requested_bytes
    &&& handle.reserved_bytes == before.units_for(requested_bytes as nat) * before.quantum
    &&& handle.requested_bytes <= handle.reserved_bytes
    &&& handle.offset + handle.reserved_bytes <= before.base + before.capacity()
}

impl OffsetAllocationHandle {
    pub fn offset(&self) -> (offset: u64)
        ensures
            offset == self.offset,
    {
        self.offset
    }

    pub fn requested_bytes(&self) -> (bytes: u64)
        ensures
            bytes == self.requested_bytes,
    {
        self.requested_bytes
    }

    pub fn reserved_bytes(&self) -> (bytes: u64)
        ensures
            bytes == self.reserved_bytes,
    {
        self.reserved_bytes
    }
}

} // verus!
