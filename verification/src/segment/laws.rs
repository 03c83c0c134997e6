//! What holds of segments and placements over several operations.

use super::identity::{ClientId, SegmentId};
use super::offset_allocator::{
    has_nodes, is_free, is_largest, is_quantum_for, lemma_size_class, range_taken, size_class,
    AllocatorView,
    OffsetAllocationHandle,
};
use super::placement::{
    are_genuine, differ_in_ranges, domain_of, is_placement, same_ranges, seats_of, walk,
    FulfillmentPolicy, PlacementError, PlacementRequest, ReservationSet,
};
use super::pool::{lemma_position, AttachOutcome, MountedSegment, PoolView, SegmentHandle};
use super::error::AttachError;
use super::reservation::Reservation;
use super::shards::extent_size;
use super::space::{
    is_placed, lemma_holder_holds, lemma_inside, lemma_taken, lemma_undone, lies_apart, part_count, same_place,
    shard_at, SpaceView,
};
use super::spec::SegmentSpecView;
use super::stats::SegmentState;
use vstd::prelude::*;

verus! {

/// Ranges that are out at one time never overlap, and each lies in the region.
pub proof fn law_live_ranges_lie_apart(space: AllocatorView, left: u32, right: u32)
    requires
        space.wf(),
        space.live.contains_key(left),
        space.live.contains_key(right),
        left < right,
    ensures
        space.base <= space.byte_offset(left),
        space.byte_offset(left) + space.live[left] * space.quantum <= space.byte_offset(right),
        space.byte_offset(right) + space.live[right] * space.quantum <= space.base
            + space.capacity(),
{
    let quantum = space.quantum as int;
    let first = space.live[left] as int;
    let second = space.live[right] as int;
    assert((left + first) * quantum == left * quantum + first * quantum) by (nonlinear_arith);
    assert((right + second) * quantum == right * quantum + second * quantum) by (nonlinear_arith);
    assert((left + first) * quantum <= right * quantum) by (nonlinear_arith)
        requires
            left + first <= right,
            quantum > 0,
    ;
    assert((right + second) * quantum <= space.units * quantum) by (nonlinear_arith)
        requires
            right + second <= space.units,
            quantum > 0,
    ;
    assert(0 <= left * quantum) by (nonlinear_arith)
        requires
            left >= 0,
            quantum > 0,
    ;
}

/// A range that is handed out is at least as long as was asked for, and shares
/// no byte with any that was out before.
pub proof fn law_new_range_meets_none(
    before: AllocatorView,
    after: AllocatorView,
    handle: OffsetAllocationHandle,
    bytes: u64,
    other: u32,
)
    requires
        before.wf(),
        after.wf(),
        after.base == before.base,
        after.quantum == before.quantum,
        range_taken(before, after, handle, bytes),
        before.live.contains_key(other),
    ensures
        bytes <= handle.reserved_bytes,
        handle.offset + handle.reserved_bytes <= before.byte_offset(other) || before.byte_offset(
            other,
        ) + before.live[other] * before.quantum <= handle.offset,
{
    assert(after.live.contains_key(handle.unit));
    assert(after.live.contains_key(other));
    assert(after.live[other] == before.live[other]);
    if handle.unit < other {
        law_live_ranges_lie_apart(after, handle.unit, other);
        lemma_units(before, after, handle, bytes);
    } else {
        law_live_ranges_lie_apart(after, other, handle.unit);
    }
}

/// A range that a segment hands out lies in its region and shares no byte with
/// any that was out before, whichever extents the two lie in.
pub proof fn law_reservation_meets_none(
    pool: PoolView,
    after: PoolView,
    handle: SegmentHandle,
    bytes: u64,
    reservation: Reservation,
    j: int,
    other: u32,
)
    requires
        pool.wf(),
        after.wf(),
        pool.reserved(after, handle, bytes, reservation),
        ({
            let space = pool.segments[pool.mounted_at(
                handle.spec.identity.id,
                handle.incarnation,
            ).unwrap()].space;
            0 <= j < space.extents.len() && space.extents[j].live.contains_key(other)
        }),
    ensures
        ({
            let segment = pool.segments[pool.mounted_at(
                handle.spec.identity.id,
                handle.incarnation,
            ).unwrap()];
            let extent = segment.space.extents[j];
            let range = reservation.allocation;
            &&& range.offset + range.reserved_bytes <= segment.spec.region.size
            &&& bytes <= range.reserved_bytes
            &&& range.offset + range.reserved_bytes <= extent.byte_offset(other)
                || extent.byte_offset(other) + extent.live[other] * extent.quantum <= range.offset
        }),
{
    let i = pool.mounted_at(handle.spec.identity.id, handle.incarnation).unwrap();
    assert(0 <= i < pool.segments.len());
    let space = pool.segments[i].space;
    let taken = after.segments[i].space;
    assert(pool.segments[i].wf() && after.segments[i].wf());
    lemma_taken(space, taken, reservation.allocation, bytes);
    let k = space.fit_from(bytes, 0).unwrap();
    assert(same_place(space.extents[k], taken.extents[k]));
    lemma_inside(space, pool.config, pool.segments[i].spec.region.size, k);
    lemma_range_inside(space.extents[j], other);
    if j == k {
        law_new_range_meets_none(
            space.extents[k],
            taken.extents[k],
            reservation.allocation,
            bytes,
            other,
        );
    } else if j < k {
        assert(lies_apart(space.extents[j], space.extents[k]));
    } else {
        assert(lies_apart(space.extents[k], space.extents[j]));
    }
}

/// A range lies in its extent.
proof fn lemma_range_inside(space: AllocatorView, unit: u32)
    requires
        space.wf(),
        space.live.contains_key(unit),
    ensures
        space.base <= space.byte_offset(unit),
        space.byte_offset(unit) + space.live[unit] * space.quantum <= space.base
            + space.capacity(),
{
    let quantum = space.quantum as int;
    let units = space.live[unit] as int;
    assert((unit + units) * quantum == unit * quantum + units * quantum) by (nonlinear_arith);
    assert((unit + units) * quantum <= space.units * quantum) by (nonlinear_arith)
        requires
            unit + units <= space.units,
            quantum > 0,
    ;
    assert(0 <= unit * quantum) by (nonlinear_arith)
        requires
            unit >= 0,
            quantum > 0,
    ;
}

/// The units of a range that was handed out.
proof fn lemma_units(
    before: AllocatorView,
    after: AllocatorView,
    handle: OffsetAllocationHandle,
    bytes: u64,
)
    requires
        before.wf(),
        after.wf(),
        after.base == before.base,
        after.quantum == before.quantum,
        range_taken(before, after, handle, bytes),
    ensures
        after.live[handle.unit] as int == before.units_for(bytes as nat) as int,
{
    let units = before.units_for(bytes as nat) as int;
    let quantum = before.quantum as int;
    assert(units * quantum == handle.reserved_bytes);
    assert(units <= u32::MAX) by {
        assert(handle.offset >= before.base) by {
            assert(0 <= handle.unit * quantum) by (nonlinear_arith)
                requires
                    handle.unit >= 0,
                    quantum > 0,
            ;
        }
        assert(units * quantum <= before.units * quantum);
        assert(units <= before.units) by (nonlinear_arith)
            requires
                units * quantum <= before.units * quantum,
                quantum > 0,
        ;
    }
}

/// Giving a reservation back undoes it: exactly the ranges are out that were out
/// before it was made.
pub proof fn law_release_undoes_reserve(
    before: PoolView,
    middle: PoolView,
    after: PoolView,
    handle: SegmentHandle,
    bytes: u64,
    reservation: Reservation,
)
    requires
        before.wf(),
        middle.wf(),
        before.reserved(middle, handle, bytes, reservation),
        middle.released(after, reservation),
    ensures
        same_ranges(before, after),
{
    let i = before.mounted_at(handle.spec.identity.id, handle.incarnation).unwrap();
    assert(0 <= i < before.segments.len() && before.segments[i].id() == handle.spec.identity.id);
    assert(middle.segments[i].id() == before.segments[i].id());
    lemma_position(middle, i);
    assert(before.segments[i].wf() && middle.segments[i].wf());
    lemma_taken(
        before.segments[i].space,
        middle.segments[i].space,
        reservation.allocation,
        bytes,
    );
    assert(middle.holding(reservation) == Some(i));
    lemma_undone(
        before.segments[i].space,
        middle.segments[i].space,
        after.segments[i].space,
        reservation.allocation,
        bytes,
    );
    assert forall|j: int| 0 <= j < before.segments.len() implies {
        &&& (#[trigger] after.segments[j]).spec == before.segments[j].spec
        &&& after.segments[j].incarnation == before.segments[j].incarnation
        &&& after.segments[j].state == before.segments[j].state
        &&& before.segments[j].space.same_places(after.segments[j].space)
        &&& before.segments[j].space.same_ranges(after.segments[j].space)
    } by {
        if j != i {
            assert(after.segments[j] == middle.segments[j]);
            assert(middle.segments[j] == before.segments[j]);
        }
    }
}

/// A region has one quantum.
proof fn lemma_one_quantum(first: nat, second: nat, capacity: nat)
    requires
        is_quantum_for(first, capacity),
        is_quantum_for(second, capacity),
    ensures
        first >= second,
{
    let a = choose|shift: nat| first == #[trigger] vstd::arithmetic::power2::pow2(shift);
    let b = choose|shift: nat| second == #[trigger] vstd::arithmetic::power2::pow2(shift);
    if first < second {
        vstd::arithmetic::power2::lemma_pow2_pos(a);
        vstd::arithmetic::power2::lemma_pow2_pos(b);
        if b <= a {
            if b < a {
                vstd::arithmetic::power2::lemma_pow2_strictly_increases(b, a);
            }
            assert(false);
        }
        vstd::arithmetic::power2::lemma_pow2_unfold(b);
        let half = vstd::arithmetic::power2::pow2((b - 1) as nat);
        if a < (b - 1) {
            vstd::arithmetic::power2::lemma_pow2_strictly_increases(a, (b - 1) as nat);
        }
        assert(second / 2 == half);
        assert(first <= half);
        vstd::arithmetic::div_mod::lemma_div_is_ordered_by_denominator(
            capacity as int,
            first as int,
            half as int,
        );
    }
}

/// A segment whose ranges were all given back serves exactly the requests that a
/// fresh one serves: every request of at most eight ninths of one of its extents,
/// and a request for a whole extent whose size has few significant bits.
pub proof fn law_emptied_segment_serves_as_fresh(
    pool: PoolView,
    i: int,
    fresh: SpaceView,
    bytes: nat,
)
    requires
        pool.wf(),
        0 <= i < pool.segments.len(),
        pool.segments[i].space.is_empty(),
        fresh.is_fresh(pool.config, pool.segments[i].spec.region.size),
    ensures
        pool.segments[i].space.fits(bytes) == fresh.fits(bytes),
        forall|k: int|
            0 <= k < pool.segments[i].space.extents.len() && 0 < bytes && 9 * bytes <= 8 * (
            #[trigger] pool.segments[i].space.extents[k]).capacity()
                ==> pool.segments[i].space.fits(bytes),
        forall|k: int|
            0 <= k < pool.segments[i].space.extents.len() && 0 < bytes <= (
            #[trigger] pool.segments[i].space.extents[k]).capacity() && size_class(
                pool.segments[i].space.extents[k].units,
            ) == pool.segments[i].space.extents[k].units ==> pool.segments[i].space.fits(bytes),
{
    let space = pool.segments[i].space;
    let size = pool.segments[i].spec.region.size;
    assert(pool.segments[i].wf());
    assert forall|k: int| 0 <= k < space.extents.len() implies {
        let extent = #[trigger] space.extents[k];
        &&& extent.fits(bytes) == fresh.extents[k].fits(bytes)
        &&& 0 < bytes && 9 * bytes <= 8 * extent.capacity() ==> extent.fits(bytes)
        &&& 0 < bytes <= extent.capacity() && size_class(extent.units) == extent.units
            ==> extent.fits(bytes)
    } by {
        let extent = space.extents[k];
        assert(extent.wf());
        assert(is_placed(extent, pool.config, size, k));
        assert(is_placed(fresh.extents[k], pool.config, size, k));
        let part = extent_size(size, part_count(pool.config, size), shard_at(pool.config, k));
        lemma_one_quantum(extent.quantum, fresh.extents[k].quantum, part as nat);
        lemma_one_quantum(fresh.extents[k].quantum, extent.quantum, part as nat);
        lemma_size_class(extent.units);
        assert(9 * (extent.largest * extent.quantum) >= 8 * (extent.units * extent.quantum))
            by (nonlinear_arith)
            requires
                9 * extent.largest >= 8 * extent.units,
                extent.quantum > 0,
        ;
    }
    if space.fits(bytes) {
        let k = choose|k: int|
            0 <= k < space.extents.len() && (#[trigger] space.extents[k]).fits(bytes);
        assert(fresh.extents[k].fits(bytes));
    }
    if fresh.fits(bytes) {
        let k = choose|k: int|
            0 <= k < fresh.extents.len() && (#[trigger] fresh.extents[k]).fits(bytes);
        assert(space.extents[k].fits(bytes));
    }
}

/// A free stretch of an extent that has nodes to spare serves every request of at
/// most its size class, and so every request of at most eight ninths of it,
/// whatever else is out.
proof fn lemma_free_stretch(space: AllocatorView, start: int, size: int, bytes: nat)
    requires
        space.wf(),
        has_nodes(space.live, space.nodes),
        is_free(space.live, space.units, start, size),
        0 < bytes,
        bytes <= size_class(size as nat) * space.quantum || 9 * bytes <= 8 * (size
            * space.quantum),
    ensures
        space.fits(bytes),
{
    reveal(is_largest);
    let class = size_class(size as nat);
    lemma_size_class(size as nat);
    assert(class * space.quantum <= space.largest * space.quantum) by (nonlinear_arith)
        requires
            class <= space.largest,
            space.quantum > 0,
    ;
    assert(9 * (class * space.quantum) >= 8 * (size * space.quantum)) by (nonlinear_arith)
        requires
            9 * class >= 8 * size,
            space.quantum > 0,
    ;
}

/// What is left free in a segment that still holds ranges can be reserved: where an
/// extent has nodes to spare, each of its free stretches serves every request of at
/// most its size class, and so every request of at most eight ninths of it.
pub proof fn law_free_space_serves(
    pool: PoolView,
    i: int,
    k: int,
    start: int,
    size: int,
    bytes: nat,
)
    requires
        pool.wf(),
        0 <= i < pool.segments.len(),
        0 <= k < pool.segments[i].space.extents.len(),
        ({
            let extent = pool.segments[i].space.extents[k];
            &&& has_nodes(extent.live, extent.nodes)
            &&& is_free(extent.live, extent.units, start, size)
            &&& 0 < bytes
            &&& bytes <= size_class(size as nat) * extent.quantum || 9 * bytes <= 8 * (size
                * extent.quantum)
        }),
    ensures
        pool.segments[i].space.fits(bytes),
{
    assert(pool.segments[i].wf());
    lemma_free_stretch(pool.segments[i].space.extents[k], start, size, bytes);
}

/// Only what is free can be reserved: a request that fits a segment has a free
/// stretch of its length in one of the extents.
pub proof fn law_what_fits_is_free(pool: PoolView, i: int, bytes: nat)
    requires
        pool.wf(),
        0 <= i < pool.segments.len(),
        pool.segments[i].space.fits(bytes),
    ensures
        exists|k: int, start: int, size: int|
            {
                &&& 0 <= k < pool.segments[i].space.extents.len()
                &&& #[trigger] is_free(
                    pool.segments[i].space.extents[k].live,
                    pool.segments[i].space.extents[k].units,
                    start,
                    size,
                )
                &&& bytes <= size * pool.segments[i].space.extents[k].quantum
            },
{
    reveal(is_largest);
    assert(pool.segments[i].wf());
    let space = pool.segments[i].space;
    let k = choose|k: int|
        0 <= k < space.extents.len() && (#[trigger] space.extents[k]).fits(bytes);
    let extent = space.extents[k];
    assert(extent.wf());
    assert(extent.largest > 0) by {
        if extent.largest == 0 {
            assert(0 * extent.quantum == 0);
        }
    }
    let (start, size) = choose|start: int, size: int| #[trigger]
        is_free(extent.live, extent.units, start, size) && extent.largest == size_class(
            size as nat,
        );
    lemma_size_class(size as nat);
    assert(extent.largest * extent.quantum <= size * extent.quantum) by (nonlinear_arith)
        requires
            extent.largest <= size,
            extent.quantum > 0,
    ;
    assert(is_free(space.extents[k].live, space.extents[k].units, start, size));
}

/// What is given back can be reserved again, whatever else is out: where the extent
/// has nodes to spare, every request of at most the size class of the range that was
/// released fits afterwards.
pub proof fn law_released_range_serves_again(
    before: PoolView,
    after: PoolView,
    reservation: Reservation,
    bytes: nat,
)
    requires
        before.wf(),
        after.wf(),
        before.released(after, reservation),
        before.holding(reservation) matches Some(i) && ({
            let space = before.segments[i].space;
            let k = space.holder(reservation.allocation.offset, 0).unwrap();
            let extent = space.extents[k];
            let unit = reservation.allocation.unit;
            &&& has_nodes(extent.live.remove(unit), extent.nodes)
            &&& 0 < bytes <= size_class(extent.live[unit] as nat) * extent.quantum
        }),
    ensures
        after.segments[before.holding(reservation).unwrap()].space.fits(bytes),
{
    let i = before.holding(reservation).unwrap();
    assert(0 <= i < before.segments.len());
    let space = before.segments[i].space;
    let then = after.segments[i].space;
    assert(before.segments[i].wf() && after.segments[i].wf());
    lemma_holder_holds(space, reservation.allocation.offset, 0);
    let k = space.holder(reservation.allocation.offset, 0).unwrap();
    let extent = space.extents[k];
    let unit = reservation.allocation.unit;
    assert(extent.wf() && then.extents[k].wf());
    let size = extent.live[unit] as int;
    assert(is_free(then.extents[k].live, extent.units, unit as int, size)) by {
        assert forall|other: u32| #[trigger]
            then.extents[k].live.contains_key(other) implies unit + size <= other || other
            + then.extents[k].live[other] <= unit by {
            assert(extent.live.contains_key(other));
        }
    }
    lemma_free_stretch(then.extents[k], unit as int, size, bytes);
}

/// No two candidates that take a replica share a failure domain, and there are
/// never more than were asked for.
pub proof fn law_chosen_candidates_lie_in_different_domains(
    pool: PoolView,
    ordered: Seq<SegmentHandle>,
    request: PlacementRequest,
    k: nat,
)
    requires
        k <= ordered.len(),
    ensures
        walk(pool, ordered, request, k).chosen.len() <= request.replicas.count,
        forall|i: int|
            0 <= i < walk(pool, ordered, request, k).chosen.len() ==> 0 <= (#[trigger] walk(
                pool,
                ordered,
                request,
                k,
            ).chosen[i]) < k,
        forall|i: int, j: int|
            0 <= i < j < walk(pool, ordered, request, k).chosen.len() ==> domain_of(
                *ordered[#[trigger] walk(pool, ordered, request, k).chosen[i]].spec,
                request.replicas.failure_domain,
            ) != domain_of(
                *ordered[#[trigger] walk(pool, ordered, request, k).chosen[j]].spec,
                request.replicas.failure_domain,
            ),
    decreases k,
{
    if k > 0 {
        law_chosen_candidates_lie_in_different_domains(pool, ordered, request, (k - 1) as nat);
        let earlier = walk(pool, ordered, request, (k - 1) as nat).chosen;
        let chosen = walk(pool, ordered, request, k).chosen;
        let domain = request.replicas.failure_domain;
        assert forall|i: int, j: int| 0 <= i < j < chosen.len() implies domain_of(
            *ordered[#[trigger] chosen[i]].spec,
            domain,
        ) != domain_of(*ordered[#[trigger] chosen[j]].spec, domain) by {
            assert(chosen[i] == earlier[i]);
            if j < earlier.len() {
                assert(chosen[j] == earlier[j]);
            }
        }
        assert forall|i: int| 0 <= i < chosen.len() implies 0 <= (#[trigger] chosen[i]) < k by {
            if i < earlier.len() {
                assert(chosen[i] == earlier[i]);
            }
        }
    }
}

/// Replicas of one object lie in different failure domains, and there are as
/// many as were asked for, or where any number will do, at most as many.
pub proof fn law_replicas_lie_in_different_domains(
    before: PoolView,
    after: PoolView,
    ordered: Seq<SegmentHandle>,
    request: PlacementRequest,
    set: ReservationSet,
)
    requires
        are_genuine(before, ordered),
        is_placement(
            before,
            after,
            ordered,
            request,
            Ok::<ReservationSet, PlacementError>(set),
        ),
    ensures
        set@.len() <= request.replicas.count,
        request.fulfillment == FulfillmentPolicy::AllOrNothing ==> set@.len()
            == request.replicas.count,
        forall|i: int, j: int|
            0 <= i < j < set@.len() ==> domain_of(
                *(#[trigger] set@[i]).segment,
                request.replicas.failure_domain,
            ) != domain_of(*(#[trigger] set@[j]).segment, request.replicas.failure_domain),
{
    let n = ordered.len();
    law_chosen_candidates_lie_in_different_domains(before, ordered, request, n);
    let chosen = walk(before, ordered, request, n).chosen;
    let seats = seats_of(before, ordered, chosen);
    lemma_chosen_are_mounted(before, ordered, request, n);
    assert forall|i: int| 0 <= i < set@.len() implies *(#[trigger] set@[i]).segment
        == *ordered[chosen[i]].spec by {
        assert(0 <= seats[i] < before.segments.len());
        let k = chosen[i];
        assert(before.mounted_at(ordered[k].spec.identity.id, ordered[k].incarnation) is Some);
        assert(seats[i] == before.mounted_at(
            ordered[k].spec.identity.id,
            ordered[k].incarnation,
        ).unwrap());
    }
    assert forall|i: int, j: int| 0 <= i < j < set@.len() implies domain_of(
        *(#[trigger] set@[i]).segment,
        request.replicas.failure_domain,
    ) != domain_of(*(#[trigger] set@[j]).segment, request.replicas.failure_domain) by {
        assert(*set@[i].segment == *ordered[chosen[i]].spec);
        assert(*set@[j].segment == *ordered[chosen[j]].spec);
    }
}

/// A candidate that takes a replica is mounted.
proof fn lemma_chosen_are_mounted(
    pool: PoolView,
    ordered: Seq<SegmentHandle>,
    request: PlacementRequest,
    k: nat,
)
    requires
        k <= ordered.len(),
    ensures
        forall|i: int|
            0 <= i < walk(pool, ordered, request, k).chosen.len() ==> pool.mounted_at(
                ordered[#[trigger] walk(pool, ordered, request, k).chosen[i]].spec.identity.id,
                ordered[walk(pool, ordered, request, k).chosen[i]].incarnation,
            ) is Some,
    decreases k,
{
    if k > 0 {
        lemma_chosen_are_mounted(pool, ordered, request, (k - 1) as nat);
        let earlier = walk(pool, ordered, request, (k - 1) as nat).chosen;
        let chosen = walk(pool, ordered, request, k).chosen;
        assert forall|i: int| 0 <= i < chosen.len() implies pool.mounted_at(
            ordered[#[trigger] chosen[i]].spec.identity.id,
            ordered[chosen[i]].incarnation,
        ) is Some by {
            if i < earlier.len() {
                assert(chosen[i] == earlier[i]);
            }
        }
    }
}

/// A placement that fails takes nothing: exactly the ranges are out that were
/// out before.
pub proof fn law_failed_placement_takes_nothing(
    before: PoolView,
    after: PoolView,
    ordered: Seq<SegmentHandle>,
    request: PlacementRequest,
    error: PlacementError,
)
    requires
        is_placement(
            before,
            after,
            ordered,
            request,
            Err::<ReservationSet, PlacementError>(error),
        ),
    ensures
        same_ranges(before, after),
        differ_in_ranges(before, after),
{
}

/// A segment that was removed takes its reservations with it: none of them is
/// live any more.
pub proof fn law_removal_ends_reservations(
    pool: PoolView,
    owner: ClientId,
    id: SegmentId,
    reservation: Reservation,
)
    requires
        pool.wf(),
        pool.removal_fault(owner, id) is None,
        reservation.segment.identity.id == id,
    ensures
        pool.after_remove(owner, id).position(id) is None,
        !pool.after_remove(owner, id).is_live(reservation),
{
    let i = pool.position(id).unwrap();
    assert(pool.segments[i].id() == id);
    let after = pool.after_remove(owner, id);
    assert(after.segments == pool.segments.remove(i));
    if after.position(id) is Some {
        let j = after.position(id).unwrap();
        assert(after.segments[j].id() == id);
        let k = if j < i { j } else { j + 1 };
        assert(after.segments[j] == pool.segments[k]);
        lemma_position(pool, i);
        lemma_position(pool, k);
    }
}

/// Attaching a segment anew does not revive reservations of an earlier
/// attachment.
pub proof fn law_attaching_anew_revives_nothing(
    before: PoolView,
    after: PoolView,
    spec: SegmentSpecView,
    state: SegmentState,
    segment: AttachOutcome,
    reservation: Reservation,
)
    requires
        before.wf(),
        after.wf(),
        before.attach_outcome(after, spec, state, Ok::<AttachOutcome, AttachError>(segment)),
        segment is Attached,
        reservation.segment.identity.id == spec.identity.id,
        reservation.incarnation < before.next_incarnation,
    ensures
        !after.is_live(reservation),
{
    let i = choose|i: int|
        {
            &&& 0 <= i <= before.segments.len()
            &&& #[trigger] after.segments[i].spec@ == spec
            &&& after.segments == before.segments.insert(i, after.segments[i])
            &&& after.segments[i].incarnation == before.next_incarnation
            &&& after.segments[i].state == state
            &&& after.segments[i].space.is_fresh(before.config, spec.region.size)
        };
    assert(after.segments[i].id() == spec.identity.id);
    lemma_position(after, i);
}

/// Invalidating a client leaves none of its segments and all of the others.
pub proof fn law_invalidation_spares_other_owners(
    pool: PoolView,
    owners: Seq<ClientId>,
    segment: MountedSegment,
)
    ensures
        pool.invalidated(owners).segments.contains(segment) <==> pool.segments.contains(segment)
            && !owners.contains(segment.owner()),
{
    let keep = |other: MountedSegment| !PoolView::owned_by(owners, other);
    let kept = pool.without_owners(owners);
    pool.segments.lemma_filter_len(keep);
    assert(pool.invalidated(owners).segments == kept) by {
        if kept.len() == pool.segments.len() {
            super::pool::lemma_filter_all(pool.segments, keep);
        }
    }
    if kept.contains(segment) {
        let i = choose|i: int| 0 <= i < kept.len() && kept[i] == segment;
        pool.segments.lemma_filter_pred(keep, i);
        assert(keep(kept[i]));
        lemma_filter_member(pool.segments, keep, segment);
    }
    if pool.segments.contains(segment) && !owners.contains(segment.owner()) {
        let i = choose|i: int| 0 <= i < pool.segments.len() && pool.segments[i] == segment;
        assert(keep(pool.segments[i]));
        pool.segments.lemma_filter_contains(keep, i);
    }
}

/// What passes a filter was there before.
proof fn lemma_filter_member<T>(items: Seq<T>, keep: spec_fn(T) -> bool, item: T)
    requires
        items.filter(keep).contains(item),
    ensures
        items.contains(item),
    decreases items.len(),
{
    reveal(Seq::filter);
    let kept = items.filter(keep);
    let i = choose|i: int| 0 <= i < kept.len() && kept[i] == item;
    if items.len() > 0 {
        let rest = items.drop_last();
        if i < rest.filter(keep).len() {
            assert(rest.filter(keep)[i] == item);
            assert(rest.filter(keep).contains(item));
            lemma_filter_member(rest, keep, item);
            let j = choose|j: int| 0 <= j < rest.len() && rest[j] == item;
            assert(items[j] == item);
        } else {
            assert(items[items.len() - 1] == item);
        }
    }
}

} // verus!
