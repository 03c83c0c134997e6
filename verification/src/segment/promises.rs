//! What the owners of segments are promised of a pool.

use super::error::{AttachError, AttachErrorView, ReserveError, SegmentStateError};
use super::identity::{ClientId, SegmentId};
use super::placement::{
    domain_of, eligible, is_eligible, preference, preference_from, ranks_before, walk,
    FailureDomain, FreeCapacityPolicy, PlacementRequest,
};
use super::pool::{
    lemma_filter_all, lemma_position, max_over, spec_fault, sum_over, AttachOutcome, MountedSegment, PoolView,
    SegmentHandle,
};
use super::reservation::Reservation;
use super::spec::{ReplicaClass, SegmentSpec, SegmentSpecView};
use super::stats::SegmentState;
use super::transport::is_protocol_name;
use vstd::prelude::*;

verus! {

/// A registration is in order exactly where the segment, its owner and its name are
/// given, the region is not empty, does not begin at nothing and ends within the
/// addresses, an endpoint is given, and the protocol is named and can carry memory.
/// Each refusal is for a reason that holds.
pub proof fn law_registrations_in_order(spec: SegmentSpecView)
    ensures
        ({
            let fault = spec_fault(spec);
            let protocol = spec.transport.protocol.text();
            let id_given = spec.identity.id.high != 0 || spec.identity.id.low != 0;
            let owner_given = spec.identity.owner.high != 0 || spec.identity.owner.low != 0;
            let carries = protocol != "cxl"@ && protocol != "nvmeof"@;
            let ends = spec.region.base + spec.region.size <= u64::MAX;
            &&& fault is None <==> id_given && owner_given && spec.identity.name.len() > 0
                && carries && spec.region.base > 0 && spec.transport.endpoint.len() > 0
                && is_protocol_name(protocol) && spec.region.size > 0 && ends
            &&& fault == Some(AttachErrorView::NilSegmentId) <==> !id_given
            &&& fault == Some(AttachErrorView::NilOwnerId) ==> !owner_given
            &&& fault == Some(AttachErrorView::EmptyName) ==> spec.identity.name.len() == 0
            &&& fault == Some(AttachErrorView::ZeroBaseAddress) ==> spec.region.base == 0
            &&& fault == Some(AttachErrorView::EmptyTransportEndpoint)
                ==> spec.transport.endpoint.len() == 0
            &&& fault == Some(AttachErrorView::ZeroSize) ==> spec.region.size == 0
            &&& fault == Some(AttachErrorView::AddressOverflow) ==> !ends
            &&& fault is Some && fault.unwrap() is IncompatibleTransportProtocol ==> !carries
            &&& fault is Some && fault.unwrap() is InvalidTransportProtocol ==> !is_protocol_name(
                protocol,
            )
        }),
{
}

/// Whether two registrations are of one owner and transport and share an address:
/// the one that begins later begins before either ends.
pub open spec fn share_addresses(left: SegmentSpecView, right: SegmentSpecView) -> bool {
    let start = if left.region.base < right.region.base {
        right.region.base
    } else {
        left.region.base
    };
    &&& left.identity.owner == right.identity.owner
    &&& left.transport == right.transport
    &&& start < left.region.base + left.region.size
    &&& start < right.region.base + right.region.size
}

proof fn lemma_first_clash(pool: PoolView, spec: SegmentSpecView, from: int)
    requires
        0 <= from,
        spec.region.size > 0,
        forall|i: int| 0 <= i < pool.segments.len() ==> (#[trigger] pool.segments[i]).spec.region.size > 0,
    ensures
        match pool.first_clash(spec, from) {
            Some(id) => exists|i: int|
                from <= i < pool.segments.len() && (#[trigger] pool.segments[i]).spec.identity.id
                    == id && share_addresses(spec, pool.segments[i].spec@),
            None => forall|i: int|
                from <= i < pool.segments.len() ==> !share_addresses(
                    spec,
                    (#[trigger] pool.segments[i]).spec@,
                ),
        },
    decreases pool.segments.len() - from,
{
    if from < pool.segments.len() {
        lemma_first_clash(pool, spec, from + 1);
    }
}

proof fn lemma_regions_are_not_empty(pool: PoolView)
    requires
        pool.wf(),
    ensures
        forall|i: int|
            0 <= i < pool.segments.len() ==> (#[trigger] pool.segments[i]).spec.region.size > 0,
{
    assert forall|i: int| 0 <= i < pool.segments.len() implies (
    #[trigger] pool.segments[i]).spec.region.size > 0 by {
        assert(pool.segments[i].wf());
    }
}

/// A segment that is attached as it is asked for stays as it is; one of the same id
/// that differs is refused. Registrations that are not in order are refused. What is
/// refused changes nothing.
pub proof fn law_attaching_again(
    pool: PoolView,
    after: PoolView,
    spec: SegmentSpecView,
    state: SegmentState,
    attached: Result<AttachOutcome, AttachError>,
    i: int,
)
    requires
        pool.wf(),
        pool.attach_outcome(after, spec, state, attached),
        0 <= i < pool.segments.len(),
        pool.segments[i].spec.identity.id == spec.identity.id,
    ensures
        spec_fault(spec) is Some ==> attached is Err,
        attached is Err ==> after == pool,
        after.segments == pool.segments,
        spec_fault(spec) is None && pool.segments[i].spec@ == spec ==> attached is Ok
            && attached->Ok_0 is AlreadyAttached,
        spec_fault(spec) is None && pool.segments[i].spec@ != spec ==> attached is Err
            && attached->Err_0@ == AttachErrorView::ConflictingSegmentId(spec.identity.id),
{
    lemma_position(pool, i);
}

/// A segment with a new id is attached where it shares no address with another
/// segment of its owner and transport; else it is refused, with the id of one that it
/// meets. It comes in the state that was asked for, under an attachment number of its
/// own, and the other segments stay as they were.
pub proof fn law_attaching_anew(
    pool: PoolView,
    after: PoolView,
    spec: SegmentSpecView,
    state: SegmentState,
    attached: Result<AttachOutcome, AttachError>,
)
    requires
        pool.wf(),
        pool.attach_outcome(after, spec, state, attached),
        spec_fault(spec) is None,
        forall|i: int|
            0 <= i < pool.segments.len() ==> (#[trigger] pool.segments[i]).spec.identity.id
                != spec.identity.id,
    ensures
        attached is Err ==> after == pool,
        attached is Ok ==> attached->Ok_0 is Attached,
        attached is Ok ==> forall|i: int|
            0 <= i < pool.segments.len() ==> !share_addresses(
                spec,
                (#[trigger] pool.segments[i]).spec@,
            ),
        attached is Err && attached->Err_0@ is OverlappingAddressRange ==> exists|i: int|
            0 <= i < pool.segments.len() && (#[trigger] pool.segments[i]).spec.identity.id
                == attached->Err_0@->existing && share_addresses(spec, pool.segments[i].spec@),
        attached is Ok ==> after.next_incarnation == pool.next_incarnation + 1,
        attached is Ok ==> exists|i: int|
            0 <= i < after.segments.len() && (#[trigger] after.segments[i]).spec@ == spec
                && after.segments[i].state == state && after.segments[i].incarnation
                == pool.next_incarnation && after.segments.remove(i) == pool.segments,
{
    lemma_regions_are_not_empty(pool);
    lemma_first_clash(pool, spec, 0);
    if pool.position(spec.identity.id) is Some {
        let i = choose|i: int|
            0 <= i < pool.segments.len() && #[trigger] pool.segments[i].id() == spec.identity.id;
        assert(pool.segments[i].spec.identity.id == spec.identity.id);
    }
    if attached is Ok {
        let i = choose|i: int|
            {
                &&& 0 <= i <= pool.segments.len()
                &&& #[trigger] after.segments[i].spec@ == spec
                &&& after.segments == pool.segments.insert(i, after.segments[i])
                &&& after.segments[i].incarnation == pool.next_incarnation
                &&& after.segments[i].state == state
                &&& after.segments[i].space.is_fresh(pool.config, spec.region.size)
            };
        assert(after.segments.remove(i) =~= pool.segments);
    }
}

/// Only its owner can change a segment. Hiding and showing it changes its state and
/// no other segment; it is removed only while it is hidden, and then the others are
/// what is left. The pool's generation moves exactly where the accepting segments
/// change, and a removal moves the invalidation epoch.
pub proof fn law_owners_change_their_segments(pool: PoolView, owner: ClientId, i: int)
    requires
        pool.wf(),
        0 <= i < pool.segments.len(),
    ensures
        ({
            let segment = pool.segments[i];
            let id = segment.spec.identity.id;
            let mine = segment.spec.identity.owner == owner;
            let accepting = segment.state == SegmentState::Accepting;
            let hidden = pool.after_quiesce(owner, id);
            let shown = pool.after_reactivate(owner, id);
            let removed = pool.after_remove(owner, id);
            &&& !mine ==> {
                &&& hidden == pool && shown == pool && removed == pool
                &&& pool.ownership_fault(owner, id) == Some(
                    SegmentStateError::OwnerMismatch {
                        segment: id,
                        expected: segment.spec.identity.owner,
                        actual: owner,
                    },
                )
                &&& pool.removal_fault(owner, id) == pool.ownership_fault(owner, id)
            }
            &&& mine ==> {
                &&& pool.ownership_fault(owner, id) is None
                &&& hidden.segments[i].state == SegmentState::Quiesced
                &&& shown.segments[i].state == SegmentState::Accepting
                &&& hidden.segments == pool.segments.update(i, hidden.segments[i])
                &&& shown.segments == pool.segments.update(i, shown.segments[i])
                &&& hidden.segments[i].space == segment.space
                &&& hidden.segments[i].incarnation == segment.incarnation
                &&& hidden.segments[i].spec == segment.spec
                &&& shown.segments[i].space == segment.space
                &&& shown.segments[i].incarnation == segment.incarnation
                &&& shown.segments[i].spec == segment.spec
                &&& accepting <==> hidden.generation != pool.generation
                &&& !accepting <==> shown.generation != pool.generation
                &&& hidden.invalidation_epoch == pool.invalidation_epoch
                &&& accepting ==> pool.removal_fault(owner, id) == Some(
                    SegmentStateError::StillAccepting(id),
                ) && removed == pool
                &&& !accepting ==> pool.removal_fault(owner, id) is None && removed.segments
                    == pool.segments.remove(i) && removed.invalidation_epoch
                    != pool.invalidation_epoch && removed.generation == pool.generation
            }
        }),
{
    lemma_position(pool, i);
}

/// What is not attached cannot be changed.
pub proof fn law_absent_segments_are_not_found(pool: PoolView, owner: ClientId, id: SegmentId)
    requires
        forall|i: int|
            0 <= i < pool.segments.len() ==> (#[trigger] pool.segments[i]).spec.identity.id != id,
    ensures
        pool.ownership_fault(owner, id) == Some(SegmentStateError::NotFound(id)),
        pool.removal_fault(owner, id) == Some(SegmentStateError::NotFound(id)),
        pool.after_quiesce(owner, id) == pool,
        pool.after_reactivate(owner, id) == pool,
        pool.after_remove(owner, id) == pool,
{
    if pool.position(id) is Some {
        let i = choose|i: int|
            0 <= i < pool.segments.len() && #[trigger] pool.segments[i].id() == id;
        assert(pool.segments[i].spec.identity.id == id);
    }
}

/// Space is reserved only for handles of this pool to an attachment that is still
/// there and accepts, and only in a segment with room; a request for nothing is
/// refused.
pub proof fn law_reserving_needs_an_accepting_segment(
    pool: PoolView,
    handle: SegmentHandle,
    bytes: u64,
)
    requires
        pool.wf(),
    ensures
        ({
            let fault = pool.reserve_fault(handle, bytes);
            let id = handle.spec.identity.id;
            &&& handle.pool_id != pool.pool_id ==> fault == Some(ReserveError::ForeignCandidate)
            &&& handle.pool_id == pool.pool_id && bytes == 0 ==> fault == Some(
                ReserveError::ZeroSize,
            )
            &&& fault is None ==> handle.pool_id == pool.pool_id && bytes > 0 && exists|i: int|
                0 <= i < pool.segments.len() && (#[trigger] pool.segments[i]).spec.identity.id
                    == id && pool.segments[i].incarnation == handle.incarnation
                    && pool.segments[i].state == SegmentState::Accepting
                    && pool.segments[i].space.fits(bytes as nat)
            &&& forall|i: int|
                0 <= i < pool.segments.len() && (#[trigger] pool.segments[i]).spec.identity.id == id
                    && pool.segments[i].incarnation == handle.incarnation && pool.segments[i].state
                    == SegmentState::Accepting && pool.segments[i].space.fits(bytes as nat)
                    && handle.pool_id == pool.pool_id && bytes > 0 ==> fault is None
            &&& forall|i: int|
                0 <= i < pool.segments.len() && (#[trigger] pool.segments[i]).spec.identity.id == id
                    && pool.segments[i].incarnation != handle.incarnation && handle.pool_id
                    == pool.pool_id && bytes > 0 ==> fault == Some(ReserveError::NotAccepting(id))
        }),
{
    let id = handle.spec.identity.id;
    if pool.reserve_fault(handle, bytes) is None {
        let i = choose|i: int|
            0 <= i < pool.segments.len() && #[trigger] pool.segments[i].id() == id;
        assert(pool.segments[i].spec.identity.id == id);
    }
    assert forall|i: int|
        0 <= i < pool.segments.len() && (#[trigger] pool.segments[i]).spec.identity.id == id
            && pool.segments[i].incarnation == handle.incarnation && pool.segments[i].state
            == SegmentState::Accepting && pool.segments[i].space.fits(bytes as nat)
            && handle.pool_id == pool.pool_id && bytes > 0 implies pool.reserve_fault(
        handle,
        bytes,
    ) is None by {
        lemma_position(pool, i);
        assert(pool.segments[i].wf());
        pool.segments[i].space.lemma_fits(bytes as nat);
    }
    assert forall|i: int|
        0 <= i < pool.segments.len() && (#[trigger] pool.segments[i]).spec.identity.id == id
            && pool.segments[i].incarnation != handle.incarnation && handle.pool_id == pool.pool_id
            && bytes > 0 implies pool.reserve_fault(handle, bytes) == Some(
        ReserveError::NotAccepting(id),
    ) by {
        lemma_position(pool, i);
    }
}

/// A reservation is as long as was asked for and lies in the segment that the handle
/// stands for, at the attachment it stands for; no other segment changes.
pub proof fn law_reservations_are_as_asked(
    pool: PoolView,
    after: PoolView,
    handle: SegmentHandle,
    bytes: u64,
    reservation: Reservation,
)
    requires
        pool.wf(),
        pool.reserved(after, handle, bytes, reservation),
    ensures
        reservation.region.size == bytes,
        reservation.pool_id == pool.pool_id,
        reservation.incarnation == handle.incarnation,
        reservation.segment.identity.id == handle.spec.identity.id,
        exists|i: int|
            0 <= i < pool.segments.len() && (#[trigger] pool.segments[i]).spec
                == *reservation.segment && pool.segments[i].incarnation == handle.incarnation
                && reservation.region.base >= pool.segments[i].spec.region.base && after.segments
                == pool.segments.update(i, after.segments[i]),
        after.segments.len() == pool.segments.len(),
        forall|i: int|
            0 <= i < pool.segments.len() && (#[trigger] pool.segments[i]).spec.identity.id
                != handle.spec.identity.id ==> after.segments[i] == pool.segments[i],
        pool.is_live(reservation),
        after.is_live(reservation),
{
    let id = handle.spec.identity.id;
    let i = pool.mounted_at(id, handle.incarnation).unwrap();
    assert(pool.segments[i].id() == id);
    let same = pool.with_space(i, after.segments[i].space);
    assert(after == same);
    assert(after.segments[i].id() == id);
    assert forall|j: int|
        0 <= j < after.segments.len() && #[trigger] after.segments[j].id() == id implies j == i by {
        if j != i {
            assert(pool.segments[j].id() == id);
            lemma_position(pool, j);
            lemma_position(pool, i);
        }
    }
}

/// Giving back a range of another pool, or of an attachment that is gone, changes
/// nothing; giving one back that is held changes its own segment only, and no state.
pub proof fn law_giving_back(pool: PoolView, after: PoolView, reservation: Reservation)
    requires
        pool.wf(),
        pool.released(after, reservation),
    ensures
        reservation.pool_id != pool.pool_id ==> after == pool,
        (forall|i: int|
            0 <= i < pool.segments.len() && (#[trigger] pool.segments[i]).spec.identity.id
                == reservation.segment.identity.id ==> pool.segments[i].incarnation
                != reservation.incarnation) ==> after == pool,
        after.segments.len() == pool.segments.len(),
        forall|i: int|
            0 <= i < pool.segments.len() ==> (#[trigger] after.segments[i]).spec
                == pool.segments[i].spec && after.segments[i].state == pool.segments[i].state
                && after.segments[i].incarnation == pool.segments[i].incarnation && (
            pool.segments[i].spec.identity.id != reservation.segment.identity.id
                ==> after.segments[i] == pool.segments[i]),
        after.generation == pool.generation,
        after.invalidation_epoch == pool.invalidation_epoch,
{
    if pool.holding(reservation) is Some {
        let i = pool.holding(reservation).unwrap();
        assert(pool.segments[i].id() == reservation.segment.identity.id);
        assert(pool.segments[i].spec.identity.id == reservation.segment.identity.id);
    }
}

/// The figures of a pool add up: with one segment more there is as much more capacity,
/// use and free space as that segment has, and the largest free range is the larger
/// of the two. Hidden segments are in these figures. There are no figures of other
/// kinds of replicas than memory.
pub proof fn law_pool_figures_add_up(pool: PoolView, segment: MountedSegment)
    ensures
        ({
            let more = PoolView { segments: pool.segments.push(segment), ..pool };
            let before = pool.space_of(ReplicaClass::Memory);
            let after = more.space_of(ReplicaClass::Memory);
            let own = segment.space.figures();
            &&& after.capacity_bytes < u64::MAX ==> after.capacity_bytes == before.capacity_bytes
                + own.capacity_bytes
            &&& after.used_bytes < u64::MAX ==> after.used_bytes == before.used_bytes
                + own.used_bytes
            &&& after.available_bytes < u64::MAX ==> after.available_bytes
                == before.available_bytes + own.available_bytes
            &&& after.largest_free_region_bytes >= own.largest_free_region_bytes
            &&& after.largest_free_region_bytes >= before.largest_free_region_bytes
            &&& after.largest_free_region_bytes == own.largest_free_region_bytes
                || after.largest_free_region_bytes == before.largest_free_region_bytes
            &&& after.generation == pool.generation
            &&& PoolView { segments: Seq::empty(), ..pool }.space_of(
                ReplicaClass::Memory,
            ).capacity_bytes == 0
            &&& PoolView { segments: Seq::empty(), ..pool }.space_of(
                ReplicaClass::Memory,
            ).used_bytes == 0
            &&& PoolView { segments: Seq::empty(), ..pool }.space_of(
                ReplicaClass::Memory,
            ).largest_free_region_bytes == 0
            &&& forall|class: ReplicaClass|
                class != ReplicaClass::Memory ==> (#[trigger] pool.space_of(class)).capacity_bytes
                    == 0 && pool.space_of(class).used_bytes == 0
        }),
{
    let more = pool.segments.push(segment);
    assert(more.drop_last() =~= pool.segments);
    lemma_sum_is_natural(
        pool.segments,
        |segment: MountedSegment| segment.space.figures().capacity_bytes as int,
    );
    lemma_sum_is_natural(
        pool.segments,
        |segment: MountedSegment| segment.space.figures().used_bytes as int,
    );
    lemma_sum_is_natural(
        pool.segments,
        |segment: MountedSegment| segment.space.figures().available_bytes as int,
    );
    lemma_max_is_one(pool.segments);
    lemma_max_is_one(more);
}

proof fn lemma_sum_is_natural(segments: Seq<MountedSegment>, figure: spec_fn(MountedSegment) -> int)
    requires
        forall|segment: MountedSegment| #[trigger] figure(segment) >= 0,
    ensures
        sum_over(segments, figure) >= 0,
    decreases segments.len(),
{
    if segments.len() > 0 {
        lemma_sum_is_natural(segments.drop_last(), figure);
        assert(figure(segments.last()) >= 0);
    }
}

proof fn lemma_max_is_one(segments: Seq<MountedSegment>)
    ensures
        0 <= max_over(
            segments,
            |segment: MountedSegment| segment.space.figures().largest_free_region_bytes as int,
        ) <= u64::MAX,
    decreases segments.len(),
{
    if segments.len() > 0 {
        lemma_max_is_one(segments.drop_last());
    }
}

/// Capacity that takes new data is that of the accepting segments: a hidden segment
/// more leaves it, an accepting one adds its own.
pub proof fn law_accepting_capacity(pool: PoolView, segment: MountedSegment)
    ensures
        ({
            let more = PoolView { segments: pool.segments.push(segment), ..pool };
            let before = pool.capacity_of(ReplicaClass::Memory);
            let after = more.capacity_of(ReplicaClass::Memory);
            &&& segment.state != SegmentState::Accepting ==> after == before
            &&& segment.state == SegmentState::Accepting && after < u64::MAX ==> after == before
                + segment.space.figures().capacity_bytes
        }),
{
    let accepts = |segment: MountedSegment| segment.state == SegmentState::Accepting;
    let more = pool.segments.push(segment);
    reveal(Seq::filter);
    assert(more.drop_last() =~= pool.segments);
    let kept = pool.segments.filter(accepts);
    lemma_sum_is_natural(
        kept,
        |segment: MountedSegment| segment.space.figures().capacity_bytes as int,
    );
    if accepts(segment) {
        assert(more.filter(accepts) == kept.push(segment));
        assert(kept.push(segment).drop_last() =~= kept);
    } else {
        assert(more.filter(accepts) == kept);
    }
}

/// Showing several segments at once shows those and leaves the others.
pub proof fn law_showing_several(pool: PoolView, ids: Seq<SegmentId>, i: int)
    requires
        0 <= i < pool.segments.len(),
    ensures
        ({
            let after = pool.reactivated(ids);
            let segment = pool.segments[i];
            &&& after.segments.len() == pool.segments.len()
            &&& ids.contains(segment.spec.identity.id) ==> after.segments[i].state
                == SegmentState::Accepting
            &&& !ids.contains(segment.spec.identity.id) ==> after.segments[i] == segment
            &&& after.segments[i].space == segment.space
            &&& after.segments[i].incarnation == segment.incarnation
            &&& after.segments[i].spec == segment.spec
            &&& ids.contains(segment.spec.identity.id) && segment.state != SegmentState::Accepting
                ==> after.generation != pool.generation
        }),
{
}

/// The first place at which a name is preferred.
pub open spec fn is_first_named(names: Seq<String>, name: Seq<char>, place: int) -> bool {
    &&& 0 <= place < names.len()
    &&& names[place]@ == name
    &&& forall|k: int| 0 <= k < place ==> (#[trigger] names[k])@ != name
}

proof fn lemma_preference(names: Seq<String>, name: Seq<char>, from: int)
    requires
        0 <= from <= names.len(),
        names.len() < usize::MAX,
        forall|k: int| 0 <= k < from ==> (#[trigger] names[k])@ != name,
    ensures
        preference_from(names, name, from) < usize::MAX ==> is_first_named(
            names,
            name,
            preference_from(names, name, from),
        ),
        preference_from(names, name, from) >= from,
        preference_from(names, name, from) == usize::MAX ==> forall|k: int|
            0 <= k < names.len() ==> (#[trigger] names[k])@ != name,
        preference_from(names, name, from) <= usize::MAX,
    decreases names.len() - from,
{
    if from < names.len() && names[from]@ != name {
        lemma_preference(names, name, from + 1);
    }
}

/// In which order segments are tried. Segments of preferred names come first, in the
/// order of the preferences; among those that are preferred alike, no segment comes
/// before one with a larger share of its capacity free. Only segments that accept,
/// have room and are not excluded are tried, and all of those are.
pub proof fn law_order_of_candidates(
    candidates: Seq<SegmentHandle>,
    request: PlacementRequest,
    ordered: Seq<SegmentHandle>,
    i: int,
    j: int,
)
    requires
        FreeCapacityPolicy::is_order(candidates, request, ordered),
        request.constraints.preferred_names@.len() < usize::MAX,
        0 <= i < j < ordered.len(),
    ensures
        ({
            let names = request.constraints.preferred_names@;
            let left = ordered[i];
            let right = ordered[j];
            let own = left.stats.space;
            let other = right.stats.space;
            &&& forall|place: int| #[trigger]
                is_first_named(names, right.spec.identity.name@, place) ==> exists|earlier: int|
                    earlier <= place && #[trigger] is_first_named(
                        names,
                        left.spec.identity.name@,
                        earlier,
                    )
            &&& left.spec.identity.name@ == right.spec.identity.name@ ==> own.available_bytes
                * other.capacity_bytes >= other.available_bytes * own.capacity_bytes
            &&& (forall|k: int|
                0 <= k < names.len() ==> (#[trigger] names[k])@ != left.spec.identity.name@)
                ==> own.available_bytes * other.capacity_bytes >= other.available_bytes
                * own.capacity_bytes
        }),
{
    let names = request.constraints.preferred_names@;
    let left = ordered[i];
    let right = ordered[j];
    assert(!ranks_before(request, right, left));
    lemma_preference(names, left.spec.identity.name@, 0);
    lemma_preference(names, right.spec.identity.name@, 0);
    assert forall|place: int| #[trigger]
        is_first_named(names, right.spec.identity.name@, place) implies exists|earlier: int|
        earlier <= place && #[trigger] is_first_named(names, left.spec.identity.name@, earlier) by {
        let mine = preference(request, right);
        assert(names[place]@ == right.spec.identity.name@);
        assert(mine == place) by {
            if mine < place {
                assert(names[mine]@ == right.spec.identity.name@);
            }
        }
        assert(is_first_named(
            names,
            left.spec.identity.name@,
            preference(request, left),
        ));
    }
}

/// Exactly the segments that accept, have as much free as a replica needs and are not
/// excluded are tried.
pub proof fn law_candidates_that_are_tried(
    candidates: Seq<SegmentHandle>,
    request: PlacementRequest,
    ordered: Seq<SegmentHandle>,
    candidate: SegmentHandle,
)
    requires
        FreeCapacityPolicy::is_order(candidates, request, ordered),
    ensures
        ordered.contains(candidate) <==> candidates.contains(candidate) && candidate.stats.state
            == SegmentState::Accepting && candidate.stats.space.available_bytes
            >= request.allocation.bytes && !request.constraints.excluded_segments@.contains(
            candidate.spec.identity.id,
        ),
{
    broadcast use vstd::seq_lib::group_to_multiset_ensures;

    let kept = eligible(request, candidates);
    let keep = |candidate: SegmentHandle| is_eligible(request, candidate);
    assert(kept == candidates.filter(keep));
    if kept.contains(candidate) {
        broadcast use vstd::seq_lib::group_filter_ensures;

        let k = choose|k: int| 0 <= k < kept.len() && kept[k] == candidate;
        assert(keep(kept[k]));
        candidates.lemma_filter_contains_rev(keep, candidate);
    }
    if candidates.contains(candidate) && is_eligible(request, candidate) {
        broadcast use vstd::seq_lib::group_filter_ensures;

        let k = choose|k: int| 0 <= k < candidates.len() && candidates[k] == candidate;
        assert(keep(candidates[k]));
        assert(kept.contains(candidates[k]));
    }
    assert(ordered.to_multiset().count(candidate) == kept.to_multiset().count(candidate));
    assert(ordered.contains(candidate) <==> ordered.to_multiset().count(candidate) > 0);
    assert(kept.contains(candidate) <==> kept.to_multiset().count(candidate) > 0);
}

/// No candidate is passed over without need: one that takes no replica comes after
/// enough were chosen, shares its failure domain with one that was, or cannot take
/// the replica.
pub proof fn law_no_candidate_is_passed_over(
    pool: PoolView,
    ordered: Seq<SegmentHandle>,
    request: PlacementRequest,
    n: nat,
    k: int,
)
    requires
        n <= ordered.len(),
        0 <= k < n,
    ensures
        ({
            let end = walk(pool, ordered, request, n);
            let domain = request.replicas.failure_domain;
            ||| end.fault is Some
            ||| end.chosen.len() >= request.replicas.count
            ||| end.chosen.contains(k)
            ||| pool.reserve_fault(ordered[k], request.allocation.bytes) is Some
            ||| exists|j: int|
                0 <= j < end.chosen.len() && domain_of(*ordered[#[trigger] end.chosen[j]].spec, domain)
                    == domain_of(*ordered[k].spec, domain)
        }),
    decreases n,
{
    let before = walk(pool, ordered, request, (n - 1) as nat);
    let end = walk(pool, ordered, request, n);
    let domain = request.replicas.failure_domain;
    if k < n - 1 {
        law_no_candidate_is_passed_over(pool, ordered, request, (n - 1) as nat, k);
        if before.chosen.contains(k) {
            let j = choose|j: int| 0 <= j < before.chosen.len() && before.chosen[j] == k;
            assert(end.chosen[j] == k);
        }
        if exists|j: int|
            0 <= j < before.chosen.len() && domain_of(
                *ordered[#[trigger] before.chosen[j]].spec,
                domain,
            ) == domain_of(*ordered[k].spec, domain) {
            let j = choose|j: int|
                0 <= j < before.chosen.len() && domain_of(
                    *ordered[#[trigger] before.chosen[j]].spec,
                    domain,
                ) == domain_of(*ordered[k].spec, domain);
            assert(end.chosen[j] == before.chosen[j]);
        }
    } else if end.chosen != before.chosen {
        assert(end.chosen[before.chosen.len() as int] == k);
    }
}

/// Segments fail alone or with their hosts: two are of one failure domain exactly
/// where they are the same segment, or where hosts matter and both are on one host
/// that is named.
pub proof fn law_failure_domains(left: SegmentSpec, right: SegmentSpec)
    ensures
        domain_of(left, FailureDomain::Segment) == domain_of(right, FailureDomain::Segment)
            <==> left.identity.id == right.identity.id,
        domain_of(left, FailureDomain::Host) == domain_of(right, FailureDomain::Host) <==> (
        left.identity.host_id@ == right.identity.host_id@ && (left.identity.host_id@.len() > 0
            || left.identity.id == right.identity.id)) || (left.identity.host_id@.len() == 0
            && right.identity.host_id@.len() == 0 && left.identity.id == right.identity.id),
{
    if left.identity.host_id@.len() == 0 && right.identity.host_id@.len() == 0 {
        assert(left.identity.host_id@ =~= right.identity.host_id@);
    }
}

/// Changes of a pool can be told from its numbers: the capacity epoch moves when a
/// segment is hidden, shown, attached or removed, and when segments are invalidated; the
/// invalidation epoch moves when segments are removed or invalidated, and the generation
/// when segments that accepted are invalidated.
pub proof fn law_epochs_tell_of_changes(
    pool: PoolView,
    after: PoolView,
    spec: SegmentSpecView,
    state: SegmentState,
    attached: Result<AttachOutcome, AttachError>,
    owners: Seq<ClientId>,
    i: int,
)
    requires
        pool.wf(),
        pool.attach_outcome(after, spec, state, attached),
        0 <= i < pool.segments.len(),
    ensures
        ({
            let segment = pool.segments[i];
            let owner = segment.spec.identity.owner;
            let id = segment.spec.identity.id;
            let gone = pool.invalidated(owners);
            &&& pool.after_quiesce(owner, id).capacity_epoch != pool.capacity_epoch
            &&& pool.after_reactivate(owner, id).capacity_epoch != pool.capacity_epoch
            &&& segment.state != SegmentState::Accepting ==> pool.after_remove(
                owner,
                id,
            ).capacity_epoch != pool.capacity_epoch
            &&& attached is Ok ==> after.capacity_epoch != pool.capacity_epoch
                && after.invalidation_epoch == pool.invalidation_epoch
            &&& owners.contains(owner) ==> gone.invalidation_epoch != pool.invalidation_epoch
                && gone.capacity_epoch != pool.capacity_epoch
            &&& owners.contains(owner) && segment.state == SegmentState::Accepting
                ==> gone.generation != pool.generation
            &&& (forall|k: int|
                0 <= k < pool.segments.len() ==> !owners.contains(
                    (#[trigger] pool.segments[k]).spec.identity.owner,
                )) ==> gone == pool
        }),
{
    lemma_position(pool, i);
    let keep = |segment: MountedSegment| !PoolView::owned_by(owners, segment);
    let kept = pool.without_owners(owners);
    assert(kept == pool.segments.filter(keep));
    if owners.contains(pool.segments[i].spec.identity.owner) {
        if kept.len() == pool.segments.len() {
            lemma_filter_all(pool.segments, keep);
            pool.segments.lemma_filter_pred(keep, i);
        }
    }
    if forall|k: int|
        0 <= k < pool.segments.len() ==> !owners.contains(
            (#[trigger] pool.segments[k]).spec.identity.owner,
        ) {
        lemma_all_kept(pool.segments, keep);
    }
}

proof fn lemma_all_kept(segments: Seq<MountedSegment>, keep: spec_fn(MountedSegment) -> bool)
    requires
        forall|k: int| 0 <= k < segments.len() ==> keep(#[trigger] segments[k]),
    ensures
        segments.filter(keep).len() == segments.len(),
    decreases segments.len(),
{
    reveal(Seq::filter);
    if segments.len() > 0 {
        let fewer = segments.drop_last();
        assert forall|k: int| 0 <= k < fewer.len() implies keep(#[trigger] fewer[k]) by {
            assert(fewer[k] == segments[k]);
        }
        lemma_all_kept(fewer, keep);
        assert(keep(segments[segments.len() - 1]));
    }
}

/// Segments that are alike are told apart: of two that are preferred alike and have the
/// same share free, the one with the larger free range is tried first, and of two that
/// are alike in that as well, the one with the lower id.
pub proof fn law_ties_of_candidates(
    candidates: Seq<SegmentHandle>,
    request: PlacementRequest,
    ordered: Seq<SegmentHandle>,
    i: int,
    j: int,
)
    requires
        FreeCapacityPolicy::is_order(candidates, request, ordered),
        0 <= i < j < ordered.len(),
        ordered[i].spec.identity.name@ == ordered[j].spec.identity.name@,
        ordered[i].stats.space.available_bytes * ordered[j].stats.space.capacity_bytes
            == ordered[j].stats.space.available_bytes * ordered[i].stats.space.capacity_bytes,
    ensures
        ({
            let left = ordered[i].stats.space.largest_free_region_bytes;
            let right = ordered[j].stats.space.largest_free_region_bytes;
            let first = ordered[i].spec.identity.id;
            let second = ordered[j].spec.identity.id;
            &&& left >= right
            &&& left == right ==> first.high < second.high || (first.high == second.high
                && first.low <= second.low)
        }),
{
    assert(!ranks_before(request, ordered[j], ordered[i]));
}

/// A placement is broken off only where a candidate fails for another reason than that
/// it does not accept or has no room.
pub proof fn law_placement_is_broken_off(
    pool: PoolView,
    ordered: Seq<SegmentHandle>,
    request: PlacementRequest,
    n: nat,
)
    requires
        n <= ordered.len(),
    ensures
        walk(pool, ordered, request, n).fault matches Some(fault) ==> !(fault is NotAccepting)
            && !(fault is OutOfSpace) && exists|k: int|
            0 <= k < n && pool.reserve_fault(#[trigger] ordered[k], request.allocation.bytes)
                == Some(fault),
    decreases n,
{
    if n > 0 {
        law_placement_is_broken_off(pool, ordered, request, (n - 1) as nat);
        let before = walk(pool, ordered, request, (n - 1) as nat);
        let end = walk(pool, ordered, request, n);
        if end.fault is Some && before.fault is None {
            assert(pool.reserve_fault(ordered[n - 1], request.allocation.bytes) == end.fault);
        }
    }
}

/// A reservation is live exactly while the attachment that it was made at is there: a
/// segment of its id, attached under its number, in its pool.
pub proof fn law_live_reservations(pool: PoolView, reservation: Reservation)
    requires
        pool.wf(),
    ensures
        pool.is_live(reservation) <==> reservation.pool_id == pool.pool_id && exists|i: int|
            0 <= i < pool.segments.len() && (#[trigger] pool.segments[i]).spec.identity.id
                == reservation.segment.identity.id && pool.segments[i].incarnation
                == reservation.incarnation,
{
    let id = reservation.segment.identity.id;
    if pool.is_live(reservation) {
        let i = pool.position(id).unwrap();
        assert(pool.segments[i].id() == id);
        assert(pool.segments[i].spec.identity.id == id);
    }
    if exists|i: int|
        0 <= i < pool.segments.len() && (#[trigger] pool.segments[i]).spec.identity.id == id
            && pool.segments[i].incarnation == reservation.incarnation {
        let i = choose|i: int|
            0 <= i < pool.segments.len() && (#[trigger] pool.segments[i]).spec.identity.id == id
                && pool.segments[i].incarnation == reservation.incarnation;
        lemma_position(pool, i);
    }
}

} // verus!
