//! What clients are promised of the segments they mount.

use super::graceful::{
    is_current, key_of, ClaimWalk, GracefulUnmountJob, GracefulUnmountKey, GracefulView,
    PendingGracefulUnmount,
};
use super::lifecycle::{ActivateOutcome, ClientPhase, ClientSession, ClientTick};
use super::manager::{
    ids_of, ClientManagerError, GracefulRound, Mounts, SegmentUnmountOutcome,
};
use super::timer::{in_order, record_before};
use crate::segment::error::{AttachError, SegmentStateError};
use crate::segment::identity::{law_client_id_round_trip, lemma_joined, ClientId, SegmentId};
use crate::segment::pool::{lemma_position, AttachOutcome, PoolView};
use crate::segment::spec::SegmentSpec;
use crate::segment::stats::SegmentState;
use vstd::prelude::*;

verus! {

/// A segment whose id occurs once is found where it is.
proof fn lemma_only_one(pool: PoolView, i: int)
    requires
        0 <= i < pool.segments.len(),
        forall|j: int|
            0 <= j < pool.segments.len() && (#[trigger] pool.segments[j]).id()
                == pool.segments[i].id() ==> j == i,
    ensures
        pool.position(pool.segments[i].id()) == Some(i),
{
    let id = pool.segments[i].id();
    assert(pool.segments[i].id() == id);
    let j = choose|j: int| 0 <= j < pool.segments.len() && #[trigger] pool.segments[j].id() == id;
    assert(pool.segments[j].id() == pool.segments[i].id());
}

/// A segment that was attached, whether anew or before, is there once.
proof fn lemma_attached_once(
    pool: PoolView,
    after: PoolView,
    spec: SegmentSpec,
    state: SegmentState,
    attached: Result<AttachOutcome, AttachError>,
) -> (i: int)
    requires
        pool.wf(),
        pool.attach_outcome(after, spec@, state, attached),
        attached is Ok,
    ensures
        0 <= i < after.segments.len(),
        after.segments[i].spec@ == spec@,
        after.segments[i].id() == spec.identity.id,
        forall|j: int|
            0 <= j < after.segments.len() && (#[trigger] after.segments[j]).id()
                == spec.identity.id ==> j == i,
{
    let id = spec.identity.id;
    if attached->Ok_0 is AlreadyAttached {
        let i = pool.position(id).unwrap();
        assert(pool.segments[i].id() == id);
        assert forall|j: int|
            0 <= j < after.segments.len() && (#[trigger] after.segments[j]).id() == id implies j
            == i by {
            lemma_position(pool, j);
        }
        i
    } else {
        let i = choose|i: int|
            {
                &&& 0 <= i <= pool.segments.len()
                &&& #[trigger] after.segments[i].spec@ == spec@
                &&& after.segments == pool.segments.insert(i, after.segments[i])
                &&& after.segments[i].incarnation == pool.next_incarnation
                &&& after.segments[i].state == state
                &&& after.segments[i].space.is_fresh(pool.config, spec@.region.size)
            };
        assert forall|j: int|
            0 <= j < after.segments.len() && (#[trigger] after.segments[j]).id() == id implies j
            == i by {
            if j < i {
                assert(pool.segments[j].id() == id);
                lemma_position(pool, j);
            } else if j > i {
                assert(pool.segments[j - 1].id() == id);
                lemma_position(pool, j - 1);
            }
        }
        i
    }
}

/// What mounting a segment comes to. Clients mount segments of their own under an id;
/// a client whose session is fenced is refused. Where it succeeds, the session is
/// active, the segment takes data, and it is mounted beside what the client had
/// mounted. Where it fails, nothing is mounted.
pub proof fn law_mounting(
    mounts: Mounts,
    after: Mounts,
    client: ClientId,
    spec: SegmentSpec,
    now: ClientTick,
    outcome: Result<ActivateOutcome, ClientManagerError>,
)
    requires
        mounts.clients.wf(),
        mounts.pool.wf(),
        mounts.mounted(after, client, spec, now, outcome),
    ensures
        ({
            let id = spec.identity.id;
            let key = client.raw();
            let known = mounts.clients.registry.entries.contains_key(key);
            let was = mounts.clients.registry.entries[key];
            let entry = after.clients.registry.entries[key];
            &&& client.high == 0 && client.low == 0 ==> outcome is Err && after == mounts
            &&& spec.identity.owner != client ==> outcome is Err && after == mounts
            &&& known && was.phase is CleanupPending ==> outcome is Err && after == mounts
            &&& outcome is Err ==> after.clients.slots == mounts.clients.slots
            &&& outcome is Ok ==> {
                &&& after.clients.registry.entries.contains_key(key)
                &&& entry.phase == ClientPhase::Active
                &&& entry.session.client_id == client
                &&& outcome->Ok_0.the_session() == entry.session
                &&& after.clients.slots.contains_key(key)
                &&& after.clients.slots[key].session == entry.session
                &&& after.clients.slots[key].segments.contains(id)
                &&& after.pool.found(id) is Some
                &&& after.pool.found(id).unwrap().spec@ == spec@
                &&& after.pool.found(id).unwrap().state == SegmentState::Accepting
                &&& !known ==> after.clients.slots[key].segments == set![id]
                &&& known ==> entry.session == was.session && after.clients.slots[key].segments
                    == mounts.clients.slots[key].segments.insert(id)
            }
            &&& forall|other: u128|
                other != key ==> #[trigger] after.clients.slots.contains_key(other)
                    == mounts.clients.slots.contains_key(other) && after.clients.slots[other]
                    == mounts.clients.slots[other]
        }),
{
    let id = spec.identity.id;
    lemma_joined(client.high, client.low);
    if mounts.clients.registry.entries.contains_key(client.raw()) {
        law_client_id_round_trip(
            mounts.clients.registry.entry(client).session.client_id,
            client,
            0,
        );
    }
    if outcome is Ok {
        if mounts.clients.state_of(client) is None {
            let (attached, pool) = choose|
                attached: Result<AttachOutcome, AttachError>,
                pool: PoolView,
            | #[trigger]
                mounts.mounted_first(after, client, spec, now, attached, pool, outcome);
            let i = lemma_attached_once(mounts.pool, pool, spec, SegmentState::Quiesced, attached);
            lemma_only_one(pool, i);
            lemma_shown(pool, client, i);
        } else if !mounts.clients.mounted(client).contains(id) {
            let (attached, pool) = choose|
                attached: Result<AttachOutcome, AttachError>,
                pool: PoolView,
            | #[trigger]
                mounts.mounted_more(after, client, spec, now, attached, pool, outcome);
            let i = lemma_attached_once(mounts.pool, pool, spec, SegmentState::Quiesced, attached);
            lemma_only_one(pool, i);
            lemma_shown(pool, client, i);
        } else {
            assert(mounts.clients.slots[client.raw()].segments.insert(id)
                =~= mounts.clients.slots[client.raw()].segments);
        }
    }
}

proof fn lemma_shown(pool: PoolView, client: ClientId, i: int)
    requires
        0 <= i < pool.segments.len(),
        pool.segments[i].owner() == client,
        forall|j: int|
            0 <= j < pool.segments.len() && (#[trigger] pool.segments[j]).id()
                == pool.segments[i].id() ==> j == i,
    ensures
        ({
            let id = pool.segments[i].id();
            let after = pool.after_reactivate(client, id);
            &&& after.found(id) is Some
            &&& after.found(id).unwrap().spec == pool.segments[i].spec
            &&& after.found(id).unwrap().state == SegmentState::Accepting
        }),
{
    let id = pool.segments[i].id();
    lemma_only_one(pool, i);
    let after = pool.after_reactivate(client, id);
    assert forall|j: int|
        0 <= j < after.segments.len() && (#[trigger] after.segments[j]).id()
            == after.segments[i].id() implies j == i by {
        assert(pool.segments[j].id() == id);
    }
    lemma_only_one(after, i);
}

/// What mounting anew comes to. An active client that names exactly what it has
/// mounted goes on as it is; one that names anything else is refused, and nothing
/// changes. A client that is unknown has what it names mounted, and nothing else.
pub proof fn law_remounting(
    mounts: Mounts,
    after: Mounts,
    client: ClientId,
    specs: Seq<SegmentSpec>,
    now: ClientTick,
    outcome: Result<ActivateOutcome, ClientManagerError>,
)
    requires
        mounts.clients.wf(),
        mounts.pool.wf(),
        mounts.remounted(after, client, specs, now, outcome),
    ensures
        ({
            let key = client.raw();
            let known = mounts.clients.registry.entries.contains_key(key);
            let was = mounts.clients.registry.entries[key];
            let entry = after.clients.registry.entries[key];
            let named = |id: SegmentId|
                exists|i: int|
                    0 <= i < specs.len() && (#[trigger] specs[i]).identity.id == id;
            &&& client.high == 0 && client.low == 0 ==> outcome is Err && after == mounts
            &&& known && was.phase is CleanupPending ==> outcome is Err && after == mounts
            &&& known ==> after.pool == mounts.pool && after.clients.slots == mounts.clients.slots
            &&& outcome is Err ==> after.clients.slots == mounts.clients.slots
            &&& outcome is Ok ==> {
                &&& entry.phase == ClientPhase::Active
                &&& outcome->Ok_0.the_session() == entry.session
                &&& after.clients.slots.contains_key(key)
                &&& after.clients.slots[key].session == entry.session
                &&& known ==> entry.session == was.session
                &&& forall|id: SegmentId| #[trigger]
                    after.clients.slots[key].segments.contains(id) <==> named(id)
            }
            &&& known && was.phase == ClientPhase::Active && (exists|id: SegmentId| #[trigger]
                mounts.clients.slots[key].segments.contains(id) != named(id)) ==> outcome is Err
                && after == mounts
        }),
{
    lemma_joined(client.high, client.low);
    if mounts.clients.registry.entries.contains_key(client.raw()) {
        law_client_id_round_trip(
            mounts.clients.registry.entry(client).session.client_id,
            client,
            0,
        );
    }
    let ids = specs.map_values(|spec: SegmentSpec| spec.identity.id);
    assert forall|id: SegmentId| #[trigger] ids_of(specs).contains(id) <==> exists|i: int|
        0 <= i < specs.len() && (#[trigger] specs[i]).identity.id == id by {
        if ids_of(specs).contains(id) {
            let i = choose|i: int| 0 <= i < ids.len() && ids[i] == id;
            assert(specs[i].identity.id == id);
        }
        if exists|i: int| 0 <= i < specs.len() && (#[trigger] specs[i]).identity.id == id {
            let i = choose|i: int| 0 <= i < specs.len() && (#[trigger] specs[i]).identity.id == id;
            assert(ids[i] == id);
        }
    }
}

/// What unmounting comes to. Only an active owner unmounts a segment; it is then gone
/// from the pool and from what the client has mounted, and everything else is as it
/// was. A segment that is not there counts as unmounted. What is refused changes
/// nothing.
pub proof fn law_unmounting(mounts: Mounts, client: ClientId, id: SegmentId)
    requires
        mounts.clients.wf(),
        mounts.pool.wf(),
    ensures
        ({
            let key = client.raw();
            let known = mounts.clients.registry.entries.contains_key(key);
            let was = mounts.clients.registry.entries[key];
            let result = mounts.unmount_result(client, id);
            let after = mounts.unmounted(client, id);
            let given = (client.high != 0 || client.low != 0) && (id.high != 0 || id.low != 0);
            &&& !given ==> result is Err
            &&& result is Err ==> after == mounts
            &&& given && (forall|i: int|
                0 <= i < mounts.pool.segments.len() ==> (
                #[trigger] mounts.pool.segments[i]).spec.identity.id != id) ==> result == Ok::<
                SegmentUnmountOutcome,
                ClientManagerError,
            >(SegmentUnmountOutcome::AlreadyAbsent) && after == mounts
            &&& forall|i: int|
                0 <= i < mounts.pool.segments.len() && (
                #[trigger] mounts.pool.segments[i]).spec.identity.id == id && given ==> {
                    &&& mounts.pool.segments[i].spec.identity.owner != client ==> result == Err::<
                        SegmentUnmountOutcome,
                        ClientManagerError,
                    >(
                        ClientManagerError::SegmentState(
                            SegmentStateError::OwnerMismatch {
                                segment: id,
                                expected: mounts.pool.segments[i].spec.identity.owner,
                                actual: client,
                            },
                        ),
                    )
                    &&& !known || was.phase is CleanupPending ==> result is Err
                    &&& mounts.pool.segments[i].spec.identity.owner == client && known && was.phase
                        == ClientPhase::Active && mounts.clients.slots[key].segments.contains(id)
                        ==> {
                        &&& result == Ok::<SegmentUnmountOutcome, ClientManagerError>(
                            SegmentUnmountOutcome::Unmounted,
                        )
                        &&& after.pool.segments == mounts.pool.segments.remove(i)
                        &&& after.clients.slots[key].segments
                            == mounts.clients.slots[key].segments.remove(id)
                        &&& after.clients.slots[key].session == mounts.clients.slots[key].session
                        &&& after.clients.registry == mounts.clients.registry
                    }
                }
            &&& forall|other: u128|
                other != key ==> #[trigger] after.clients.slots.contains_key(other)
                    == mounts.clients.slots.contains_key(other) && after.clients.slots[other]
                    == mounts.clients.slots[other]
        }),
{
    let key = client.raw();
    lemma_joined(client.high, client.low);
    if mounts.pool.position(id) is Some {
        let i = mounts.pool.position(id).unwrap();
        assert(mounts.pool.segments[i].spec.identity.id == id);
    }
    assert forall|i: int|
        0 <= i < mounts.pool.segments.len() && (
        #[trigger] mounts.pool.segments[i]).spec.identity.id == id implies mounts.pool.position(id)
        == Some(i) by {
        lemma_position(mounts.pool, i);
    }
    if mounts.unmount_result(client, id) == Ok::<SegmentUnmountOutcome, ClientManagerError>(
        SegmentUnmountOutcome::Unmounted,
    ) {
        let i = mounts.pool.position(id).unwrap();
        assert(mounts.pool.segments[i].spec.identity.id == id);
        let hidden = mounts.pool.after_quiesce(client, id);
        assert forall|j: int|
            0 <= j < hidden.segments.len() && (#[trigger] hidden.segments[j]).id()
                == hidden.segments[i].id() implies j == i by {
            assert(mounts.pool.segments[j].spec.identity.id == id);
        }
        lemma_only_one(hidden, i);
        assert(hidden.segments.remove(i) =~= mounts.pool.segments.remove(i));
    }
}

/// What putting off a removal comes to. The segment takes no data from then on, and
/// stays mounted; its removal is due no later than was asked for. It can be asked for
/// again while it is put off.
pub proof fn law_putting_off_a_removal(
    mounts: Mounts,
    client: ClientId,
    id: SegmentId,
    deadline: ClientTick,
)
    requires
        mounts.clients.wf(),
        mounts.pool.wf(),
    ensures
        ({
            let key = client.raw();
            let result = mounts.schedule_result(client, id);
            let after = mounts.scheduled(client, id, deadline);
            let pending = after.clients.graceful.pending;
            let job = GracefulUnmountKey {
                session: mounts.clients.slots[key].session,
                segment: id,
            };
            &&& result is Err ==> after == mounts
            &&& result is Ok ==> {
                &&& mounts.clients.slots[key].segments.contains(id)
                &&& mounts.clients.registry.entries.contains_key(key)
                &&& mounts.clients.registry.entries[key].phase == ClientPhase::Active
                &&& after.clients.slots == mounts.clients.slots
                &&& after.clients.registry == mounts.clients.registry
                &&& pending.contains_key(job)
                &&& !pending[job].claimed ==> pending[job].deadline.value <= deadline.value
            }
            &&& forall|i: int|
                0 <= i < mounts.pool.segments.len() && (
                #[trigger] mounts.pool.segments[i]).spec.identity.id == id && result is Ok ==> {
                    &&& mounts.pool.segments[i].spec.identity.owner == client
                    &&& after.pool.segments[i].state != SegmentState::Accepting
                    &&& after.pool.segments.len() == mounts.pool.segments.len()
                }
            &&& forall|i: int|
                0 <= i < mounts.pool.segments.len() && (
                #[trigger] mounts.pool.segments[i]).spec.identity.id != id
                    ==> after.pool.segments[i] == mounts.pool.segments[i]
        }),
{
    lemma_joined(client.high, client.low);
    if mounts.pool.position(id) is Some {
        let i = mounts.pool.position(id).unwrap();
        assert(mounts.pool.segments[i].spec.identity.id == id);
    }
    assert forall|i: int|
        0 <= i < mounts.pool.segments.len() && (
        #[trigger] mounts.pool.segments[i]).spec.identity.id == id implies mounts.pool.position(id)
        == Some(i) by {
        lemma_position(mounts.pool, i);
    }
}

/// What executing a removal that was put off comes to. It removes its segment where
/// the same session still has the same attachment mounted and the segment is hidden;
/// it removes nothing else. One that fails is put off again for a tenth of a thousand
/// ticks, while nothing newer was asked for. Each is counted once.
pub proof fn law_executing_a_removal(round: GracefulRound, job: GracefulUnmountJob, now: ClientTick)
    requires
        round.mounts.pool.wf(),
        round.report.completed < usize::MAX,
        round.report.retried < usize::MAX,
        round.report.stale_or_cancelled < usize::MAX,
    ensures
        ({
            let client = job.key.session.client_id;
            let id = job.key.segment;
            let mounts = round.mounts;
            let after = round.step(job, now);
            let slot = mounts.clients.slots[client.raw()];
            let mine = mounts.clients.slots.contains_key(client.raw()) && slot.session
                == job.key.session && slot.segments.contains(id);
            let total = round.report.completed + round.report.stale_or_cancelled
                + round.report.retried;
            &&& after.report.completed + after.report.stale_or_cancelled + after.report.retried
                == total + 1
            &&& !mine ==> after.mounts.pool == mounts.pool && after.mounts.clients.slots
                == mounts.clients.slots && after.report.completed == round.report.completed
            &&& after.report.completed > round.report.completed ==> mine
                && !after.mounts.clients.slots[client.raw()].segments.contains(id)
            &&& forall|i: int|
                0 <= i < mounts.pool.segments.len() && (
                #[trigger] mounts.pool.segments[i]).spec.identity.id == id && mine ==> {
                    let segment = mounts.pool.segments[i];
                    &&& job.incarnation.incarnation == segment.incarnation
                        && job.incarnation.pool_id == mounts.pool.pool_id
                        && job.incarnation.segment == id && segment.state != SegmentState::Accepting
                        && segment.spec.identity.owner == client ==> {
                        &&& after.report.completed == round.report.completed + 1
                        &&& after.mounts.pool.segments == mounts.pool.segments.remove(i)
                    }
                    &&& job.incarnation.incarnation != segment.incarnation ==> after.mounts.pool
                        == mounts.pool && after.report.completed == round.report.completed
                    &&& segment.state == SegmentState::Accepting
                        ==> after.mounts.pool.segments.len() == mounts.pool.segments.len()
                }
            &&& after.report.retried > round.report.retried ==> {
                let pending = after.mounts.clients.graceful.pending;
                &&& pending.contains_key(job.key)
                &&& !pending[job.key].claimed
                &&& pending[job.key].incarnation == job.incarnation
                &&& pending[job.key].deadline.value == now.value + 100
                    || pending[job.key].deadline.value == u64::MAX
                &&& after.mounts.clients.slots == mounts.clients.slots
            }
        }),
{
    let id = job.key.segment;
    if round.mounts.pool.position(id) is Some {
        let i = round.mounts.pool.position(id).unwrap();
        assert(round.mounts.pool.segments[i].spec.identity.id == id);
    }
    assert forall|i: int|
        0 <= i < round.mounts.pool.segments.len() && (
        #[trigger] round.mounts.pool.segments[i]).spec.identity.id
            == id implies round.mounts.pool.position(id) == Some(i) by {
        lemma_position(round.mounts.pool, i);
    }
}

proof fn lemma_pruned_keeps(queue: GracefulView, place: int) -> (gone: int)
    requires
        0 <= place < queue.deadlines.len(),
        is_current(queue.pending, queue.deadlines[place]),
    ensures
        0 <= gone <= place,
        queue.pruned().deadlines == queue.deadlines.skip(gone),
        queue.pruned().pending == queue.pending,
        is_current(queue.pending, queue.pruned().deadlines[0]),
    decreases queue.deadlines.len(),
{
    if is_current(queue.pending, queue.deadlines[0]) {
        assert(queue.deadlines.skip(0) =~= queue.deadlines);
        0
    } else {
        let next = GracefulView { deadlines: queue.deadlines.drop_first(), ..queue };
        assert(next.deadlines[place - 1] == queue.deadlines[place]);
        let gone = lemma_pruned_keeps(next, place - 1);
        assert(next.deadlines.skip(gone) =~= queue.deadlines.skip(gone + 1));
        gone + 1
    }
}

proof fn lemma_claimed_stay(walk: ClaimWalk, now: ClientTick, budget: nat)
    ensures
        ({
            let end = walk.claim(now, budget);
            &&& walk.jobs.len() <= end.jobs.len()
            &&& forall|i: int| 0 <= i < walk.jobs.len() ==> #[trigger] end.jobs[i] == walk.jobs[i]
        }),
    decreases walk.queue.deadlines.len(),
{
    let queue = walk.queue.pruned();
    lemma_pruned_is_shorter(walk.queue);
    if walk.jobs.len() < budget && queue.deadlines.len() > 0 && queue.deadlines[0].at
        <= now.value {
        let record = queue.deadlines[0];
        let key = key_of(record);
        let rest = GracefulView { deadlines: queue.deadlines.drop_first(), ..queue };
        if queue.pending[key].claimed {
            lemma_claimed_stay(ClaimWalk { queue: rest, ..walk }, now, budget);
        } else {
            let next = step_of(walk);
            lemma_claimed_stay(next, now, budget);
            assert forall|i: int| 0 <= i < walk.jobs.len() implies #[trigger] walk.claim(
                now,
                budget,
            ).jobs[i] == walk.jobs[i] by {
                assert(next.jobs[i] == walk.jobs[i]);
            }
        }
    }
}

/// A claim walk after its first removal was claimed.
spec fn step_of(walk: ClaimWalk) -> ClaimWalk {
    let queue = walk.queue.pruned();
    let record = queue.deadlines[0];
    let key = key_of(record);
    let rest = GracefulView { deadlines: queue.deadlines.drop_first(), ..queue };
    ClaimWalk {
        queue: GracefulView {
            pending: rest.pending.insert(
                key,
                PendingGracefulUnmount { claimed: true, ..rest.pending[key] },
            ),
            ..rest
        },
        jobs: walk.jobs.push(
            GracefulUnmountJob {
                key,
                incarnation: rest.pending[key].incarnation,
                revision: record.revision,
            },
        ),
    }
}

proof fn lemma_pruned_is_shorter(queue: GracefulView)
    ensures
        queue.pruned().deadlines.len() <= queue.deadlines.len(),
    decreases queue.deadlines.len(),
{
    if queue.deadlines.len() > 0 && !is_current(queue.pending, queue.deadlines[0]) {
        lemma_pruned_is_shorter(
            GracefulView { deadlines: queue.deadlines.drop_first(), ..queue },
        );
    }
}

/// Removals that were put off are executed when they are due: one that nobody claimed
/// yet is claimed by a round at or after its deadline whose budget covers all that is
/// queued.
pub proof fn law_due_removals_are_claimed(walk: ClaimWalk, now: ClientTick, budget: nat, place: int)
    requires
        in_order(walk.queue.deadlines),
        0 <= place < walk.queue.deadlines.len(),
        is_current(walk.queue.pending, walk.queue.deadlines[place]),
        !walk.queue.pending[key_of(walk.queue.deadlines[place])].claimed,
        walk.queue.deadlines[place].at <= now.value,
        walk.jobs.len() + place < budget,
    ensures
        ({
            let key = key_of(walk.queue.deadlines[place]);
            let end = walk.claim(now, budget);
            exists|i: int|
                0 <= i < end.jobs.len() && (#[trigger] end.jobs[i]).key == key
                    && end.jobs[i].incarnation == walk.queue.pending[key].incarnation
        }),
    decreases walk.queue.deadlines.len(),
{
    let record = walk.queue.deadlines[place];
    let key = key_of(record);
    let gone = lemma_pruned_keeps(walk.queue, place);
    let queue = walk.queue.pruned();
    let first = queue.deadlines[0];
    assert(first == walk.queue.deadlines[gone]);
    if gone < place {
        assert(!record_before(walk.queue.deadlines[place], walk.queue.deadlines[gone]));
    }
    assert(first.at <= now.value);
    let rest = GracefulView { deadlines: queue.deadlines.drop_first(), ..queue };
    if key_of(first) == key {
        let next = step_of(walk);
        lemma_claimed_stay(next, now, budget);
        assert(next.jobs.last().key == key);
        assert(walk.claim(now, budget) == next.claim(now, budget));
        assert(walk.claim(now, budget).jobs[walk.jobs.len() as int].key == key);
    } else {
        assert forall|i: int, j: int| 0 <= i < j < rest.deadlines.len() implies !record_before(
            #[trigger] rest.deadlines[j],
            #[trigger] rest.deadlines[i],
        ) by {
            assert(!record_before(
                walk.queue.deadlines[gone + 1 + j],
                walk.queue.deadlines[gone + 1 + i],
            ));
        }
        assert(rest.deadlines[place - gone - 1] == record);
        if queue.pending[key_of(first)].claimed {
            let next = ClaimWalk { queue: rest, ..walk };
            law_due_removals_are_claimed(next, now, budget, place - gone - 1);
            assert(walk.claim(now, budget) == next.claim(now, budget));
        } else {
            let next = step_of(walk);
            law_due_removals_are_claimed(next, now, budget, place - gone - 1);
            assert(walk.claim(now, budget) == next.claim(now, budget));
        }
    }
}

/// A removal that was put off is given up with its segment: after the segment was
/// unmounted, none is queued for it under that session.
pub proof fn law_unmounting_gives_up_removals(mounts: Mounts, client: ClientId, id: SegmentId)
    requires
        mounts.unmount_result(client, id) == Ok::<SegmentUnmountOutcome, ClientManagerError>(
            SegmentUnmountOutcome::Unmounted,
        ),
    ensures
        ({
            let key = GracefulUnmountKey {
                session: mounts.clients.slots[client.raw()].session,
                segment: id,
            };
            let was = mounts.clients.graceful;
            let after = mounts.unmounted(client, id).clients.graceful;
            &&& !after.pending.contains_key(key)
            &&& after.pending == was.pending.remove(key)
            &&& was.pending.contains_key(key) && !was.pending[key].claimed && was.cancelled
                < usize::MAX ==> after.cancelled == was.cancelled + 1
            &&& !was.pending.contains_key(key) ==> after.cancelled == was.cancelled
        }),
{
}

/// With its sessions a client's removals are given up: none of theirs is queued any
/// more, and those of other sessions stay.
pub proof fn law_sessions_take_their_removals_along(
    queue: GracefulView,
    sessions: Seq<ClientSession>,
    key: GracefulUnmountKey,
)
    ensures
        ({
            let after = queue.sessions_cancelled(sessions);
            &&& sessions.contains(key.session) ==> !after.pending.contains_key(key)
            &&& !sessions.contains(key.session) ==> after.pending.contains_key(key)
                == queue.pending.contains_key(key)
            &&& after.pending.contains_key(key) ==> after.pending[key] == queue.pending[key]
                && queue.pending.contains_key(key)
        }),
    decreases sessions.len(),
{
    if sessions.len() > 0 {
        let fewer = sessions.drop_last();
        law_sessions_take_their_removals_along(queue, fewer, key);
        if fewer.contains(key.session) {
            let k = choose|k: int| 0 <= k < fewer.len() && fewer[k] == key.session;
            assert(sessions[k] == key.session);
        }
        if sessions.last() == key.session {
            assert(sessions[sessions.len() - 1] == key.session);
        }
        if sessions.contains(key.session) && sessions.last() != key.session {
            let k = choose|k: int| 0 <= k < sessions.len() && sessions[k] == key.session;
            assert(fewer[k] == key.session);
        }
    }
}

} // verus!
