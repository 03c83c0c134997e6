//! A put by the parts that it is made of: a range, a write, and its commit.

use super::PutOutcome;
use crate::client::lifecycle::{ClientRegistry, RegistryView};
use crate::object::catalog::state::CatalogView;
use crate::object::catalog::write::{first_dead, first_small, replica_fault, WriteClaim};
use crate::object::catalog::ObjectCatalog;
use crate::object::config::{
    ObjectPinRequest, ResolvedObjectPinRequest, ResolvedSoftPinRequest, SoftPinAction,
};
use crate::object::content::{ObjectContent, ObjectKind};
use crate::object::identity::ObjectIdentity;
use crate::object::reclamation::CatalogTick;
use crate::object::replica::{all_live, ReplicaId, ReplicaLease, ReplicaSet};
use crate::object::write::{ObjectCommit, WriteAdmission, WriteMode};
use crate::segment::laws::law_release_undoes_reserve;
use crate::segment::placement::same_ranges;
use crate::segment::pool::{lemma_position, PoolView, SegmentHandle, SegmentPool};
use crate::segment::reservation::Reservation;
use crate::segment::space::lemma_missed;
use vstd::prelude::*;

verus! {

/// What becomes of a put: it does not start where the segment has no range for it
/// or the catalog refuses the write, and does not finish where the writer is no
/// longer admitted.
pub open spec fn put_outcome(
    pool: PoolView,
    catalog: CatalogView,
    sessions: RegistryView,
    candidate: SegmentHandle,
    name: (u64, Seq<char>),
    admission: WriteAdmission,
    bytes: u64,
) -> PutOutcome {
    if pool.reserve_fault(candidate, bytes) is Some || catalog.begin_result(
        name,
        WriteMode::Insert,
    ) is Err {
        PutOutcome::NotStarted
    } else if !admission.is_admitted(sessions) {
        PutOutcome::NotFinished
    } else {
        PutOutcome::Stored
    }
}

/// The pins of a put: none.
pub open spec fn no_pins() -> ResolvedObjectPinRequest {
    ResolvedObjectPinRequest {
        soft_pin: ResolvedSoftPinRequest { action: SoftPinAction::Preserve, ttl_ticks: 0 },
        with_hard_pin: false,
    }
}

/// The catalog after the write of a put was begun.
pub open spec fn put_begun(catalog: CatalogView, claim: WriteClaim) -> CatalogView {
    if catalog.find(claim.identity@) is Some {
        catalog.begun_in(claim.slot, claim.admission.owner, no_pins())
    } else {
        catalog.begun_new(claim.identity, claim.admission.owner, no_pins())
    }
}

/// The one replica of a put.
pub open spec fn put_replicas(reservation: Reservation) -> Seq<ReplicaLease> {
    seq![ReplicaLease { id: ReplicaId { value: 1 }, reservation }]
}

/// The catalog after a put was stored and nobody holds on to it.
pub open spec fn put_stored(
    catalog: CatalogView,
    claim: WriteClaim,
    bytes: u64,
    reservation: Reservation,
) -> CatalogView {
    let begun = put_begun(catalog, claim);
    let version = begun.staged_version(
        claim,
        ObjectContent { logical_bytes: bytes, kind: ObjectKind::KvCache },
        put_replicas(reservation),
        None,
    );
    begun.staged(claim.slot, version, claim.started_at).published(
        claim.slot,
        (ObjectCommit { checksum: None }),
        claim.started_at,
    ).version_released(catalog.catalog_id, claim.slot, claim.id.value).version_released(
        catalog.catalog_id,
        claim.slot,
        claim.id.value,
    )
}

/// Whether a claim is the one that a put gets.
pub open spec fn is_put_claim(
    catalog: CatalogView,
    claim: WriteClaim,
    name: (u64, Seq<char>),
    admission: WriteAdmission,
    now: CatalogTick,
) -> bool {
    catalog.begin_result(name, WriteMode::Insert) matches Ok(place) && claim.is_claim(
        catalog.catalog_id,
        place,
        name,
        admission,
        now,
    ) && claim.identity == put_begun(catalog, claim).slots[place.0].identity
}

/// A refused reservation leaves the ranges that are out.
proof fn lemma_refused(pool: PoolView, candidate: SegmentHandle, bytes: u64)
    requires
        pool.wf(),
    ensures
        same_ranges(pool, pool.after_refusal(candidate, bytes)),
{
    let after = pool.after_refusal(candidate, bytes);
    assert forall|i: int| 0 <= i < pool.segments.len() implies pool.segments[i].space.same_ranges(
        (#[trigger] after.segments[i]).space,
    ) && pool.segments[i].space.same_places(after.segments[i].space) by {
        assert(pool.segments[i].wf());
        lemma_missed(pool.segments[i].space, bytes);
    }
}

/// A range that was just handed out is live.
proof fn lemma_reserved_lives(
    pool: PoolView,
    after: PoolView,
    candidate: SegmentHandle,
    bytes: u64,
    reservation: Reservation,
)
    requires
        pool.wf(),
        after.wf(),
        pool.reserved(after, candidate, bytes, reservation),
    ensures
        after.is_live(reservation),
        reservation.allocation.requested_bytes == bytes,
{
    let i = pool.mounted_at(candidate.spec.identity.id, candidate.incarnation).unwrap();
    assert(0 <= i < pool.segments.len() && pool.segments[i].id() == candidate.spec.identity.id);
    assert(after.segments[i].id() == pool.segments[i].id());
    lemma_position(after, i);
}

/// Stores one object in one range of a segment: reserves the range, begins an
/// insert, stages the replica and commits it. What cannot be used is given back.
pub fn put_object(
    pool: &mut SegmentPool,
    catalog: &mut ObjectCatalog,
    sessions: &ClientRegistry,
    candidate: &SegmentHandle,
    identity: ObjectIdentity,
    admission: WriteAdmission,
    bytes: u64,
    now: CatalogTick,
) -> (outcome: PutOutcome)
    requires
        old(pool).wf(),
        old(catalog).wf(),
    ensures
        final(pool).wf(),
        final(catalog).wf(),
        outcome == put_outcome(
            old(pool)@,
            old(catalog)@,
            sessions@,
            *candidate,
            identity@,
            admission,
            bytes,
        ),
        outcome == PutOutcome::NotStarted ==> final(catalog)@ == old(catalog)@,
        outcome != PutOutcome::Stored ==> same_ranges(old(pool)@, final(pool)@),
        outcome == PutOutcome::Stored ==> final(catalog)@.get_result(
            final(pool)@,
            identity@,
        ) is Ok,
        outcome == PutOutcome::NotFinished ==> exists|claim: WriteClaim|
            {
                &&& is_put_claim(old(catalog)@, claim, identity@, admission, now)
                &&& final(catalog)@ == #[trigger] put_begun(old(catalog)@, claim).claim_dropped(
                    final(pool)@,
                    claim.slot,
                    claim.id.value,
                    now,
                )
            },
        outcome == PutOutcome::Stored ==> exists|claim: WriteClaim, reservation: Reservation|
            {
                &&& is_put_claim(old(catalog)@, claim, identity@, admission, now)
                &&& old(pool)@.reserved(final(pool)@, *candidate, bytes, reservation)
                &&& final(catalog)@ == #[trigger] put_stored(
                    old(catalog)@,
                    claim,
                    bytes,
                    reservation,
                )
            },
{
    let ghost before = pool@;
    let ghost was = catalog@;
    proof {
        pool.lemma_wf();
    }
    let reservation = match pool.reserve(candidate, bytes) {
        Ok(reservation) => reservation,
        Err(_) => {
            proof {
                lemma_refused(before, *candidate, bytes);
            }
            return PutOutcome::NotStarted;
        },
    };
    let ghost held = pool@;
    let ghost range = reservation;
    proof {
        pool.lemma_wf();
        lemma_reserved_lives(before, held, *candidate, bytes, range);
    }
    let claim = match catalog.begin_write(
        identity,
        admission,
        WriteMode::Insert,
        ObjectPinRequest::default(),
        now,
    ) {
        Ok(claim) => claim,
        Err(_) => {
            pool.release(reservation);
            proof {
                law_release_undoes_reserve(before, held, pool@, *candidate, bytes, range);
            }
            return PutOutcome::NotStarted;
        },
    };
    let ghost begun = catalog@;
    let ghost claimed = claim;
    assert(begun == put_begun(was, claimed));
    assert(is_put_claim(was, claimed, identity@, admission, now));
    let replicas = ReplicaSet::one(ReplicaLease::new(ReplicaId::new(1), reservation));
    assert(replicas@ =~= put_replicas(range));
    proof {
        let replicas = put_replicas(range);
        assert(replicas[0].lives(held));
        assert(first_dead(replicas, held, 0) == first_dead(replicas, held, 1));
        assert(first_small(replicas, bytes, 0) == first_small(replicas, bytes, 1));
        assert(replica_fault(replicas, held, bytes) is None);
        assert(all_live(replicas, held));
    }
    match claim.stage(catalog, pool, sessions, ObjectContent::new(bytes), replicas) {
        Err(failure) => {
            let mut ranges: Vec<Reservation> = Vec::new();
            failure.replicas.append_reclaim_resources(&mut ranges);
            assert(ranges@ =~= seq![range]);
            if let Some(reservation) = ranges.pop() {
                pool.release(reservation);
            }
            proof {
                law_release_undoes_reserve(before, held, pool@, *candidate, bytes, range);
                assert(begun.slots[claimed.slot].committed is None);
                assert(catalog@ == begun.stage_failed(held, claimed, None));
                assert(catalog@ == put_begun(was, claimed).claim_dropped(
                    pool@,
                    claimed.slot,
                    claimed.id.value,
                    now,
                ));
            }
            PutOutcome::NotFinished
        },
        Ok(transaction) => {
            let committed = catalog.commit(pool, &transaction, ObjectCommit::default(), now);
            catalog.release_transaction(transaction);
            match committed {
                Ok(handle) => {
                    catalog.release_handle(handle);
                    proof {
                        assert(catalog@ == put_stored(was, claimed, bytes, range));
                        let place = (claimed.slot, claimed.id.value);
                        assert(catalog@.find(identity@) == Some(claimed.slot));
                        assert(catalog@.versions[place].replicas == put_replicas(range));
                        assert(put_replicas(range)[0].lives(held));
                    }
                    PutOutcome::Stored
                },
                Err(_) => PutOutcome::NotFinished,
            }
        },
    }
}

} // verus!
