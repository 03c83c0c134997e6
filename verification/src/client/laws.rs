//! What holds of clients, their sessions and their mounts over several
//! operations.

use super::graceful::{
    earlier, law_next_deadline_is_the_earlier, ClaimWalk, GracefulUnmountJob, GracefulUnmountKey,
};
use super::lifecycle::{
    ActivateOutcome, ClaimRound, CleanupClaimState, CleanupReason, ClientCleanup, ClientEntry,
    ClientPhase, ClientSession, ClientTick,
    HeartbeatOutcome, RegistryView,
};
use super::manager::{
    claims_held, clients_of, lemma_others_stay, mounts_of, raws_of, ClientsView, Mounts,
    SegmentUnmountOutcome,
};
use super::undo::lemma_found_after_quiesce;
use crate::segment::error::AttachError;
use crate::segment::identity::{law_client_id_round_trip, lemma_joined, ClientId, SegmentId};
use crate::segment::pool::{lemma_filter_all, lemma_position, AttachOutcome, PoolView};
use crate::segment::spec::SegmentSpec;
use crate::segment::stats::SegmentState;
use vstd::prelude::*;

verus! {

/// A client that comes back gets a session that no earlier one of any client
/// equals: generations are given out once.
pub proof fn law_new_session_is_fresh(
    registry: RegistryView,
    client: ClientId,
    now: ClientTick,
    earlier: ClientSession,
)
    requires
        registry.wf(),
        earlier.generation < registry.next_generation,
    ensures
        registry.activate_result(client, now) matches Ok(ActivateOutcome::Activated(session))
            ==> session != earlier && registry.activated(client, now).is_active(session)
            && !registry.activated(client, now).is_active(
            ClientSession { client_id: client, generation: earlier.generation },
        ),
{
}

/// A session that was drained is fenced at once: it is not active, a heartbeat
/// does not revive it, and activating its client is refused until the cleanup
/// is done.
pub proof fn law_drained_session_is_fenced(
    registry: RegistryView,
    session: ClientSession,
    reason: CleanupReason,
    now: ClientTick,
)
    requires
        registry.wf(),
        registry.drain_result(session, reason) is Ok,
    ensures
        ({
            let drained = registry.drained(session, reason);
            &&& !drained.is_active(session)
            &&& drained.heartbeat_result(session.client_id, now) == HeartbeatOutcome::NeedRemount
            &&& !drained.heartbeated(session.client_id, now).is_active(session)
            &&& drained.activate_result(session.client_id, now) is Err
        }),
{
    assert(registry.entries.contains_key(session.client_id.raw()));
}

/// A session whose deadline has come cannot be revived: neither a heartbeat nor
/// a remount keeps it active.
pub proof fn law_expired_session_stays_dead(
    registry: RegistryView,
    session: ClientSession,
    now: ClientTick,
)
    requires
        registry.wf(),
        registry.is_active(session),
        now.value >= registry.entry(session.client_id).expires_at.value,
    ensures
        registry.heartbeat_result(session.client_id, now) == HeartbeatOutcome::NeedRemount,
        !registry.heartbeated(session.client_id, now).is_active(session),
        registry.activate_result(session.client_id, now) is Err,
        !registry.activated(session.client_id, now).is_active(session),
{
    lemma_joined(session.client_id.high, session.client_id.low);
    assert(registry.entries.contains_key(session.client_id.raw()));
}

/// A heartbeat in time moves the deadline and never brings it forward.
pub proof fn law_heartbeat_extends_the_lease(
    registry: RegistryView,
    client: ClientId,
    now: ClientTick,
)
    requires
        registry.wf(),
        registry.heartbeat_result(client, now) is Alive,
    ensures
        ({
            let before = registry.entry(client);
            let after = registry.heartbeated(client, now).entry(client);
            &&& after.session == before.session
            &&& after.phase == ClientPhase::Active
            &&& after.expires_at.value >= before.expires_at.value
            &&& after.expires_at.value >= now.later(registry.config.ttl_ticks).value
        }),
{
    assert(registry.entries.contains_key(client.raw()));
    law_client_id_round_trip(registry.entry(client).session.client_id, client, 0);
}

/// A cleanup that a worker gives back is not lost: it is queued for the next
/// round, and the session stays fenced meanwhile.
pub proof fn law_released_cleanup_is_queued(registry: RegistryView, session: ClientSession)
    requires
        registry.wf(),
        registry.has(session.client_id),
        registry.entry(session.client_id).session == session,
        registry.entry(session.client_id).claimable(CleanupClaimState::Running) is Some,
    ensures
        registry.cleanup_released(session).ready.last() == session,
        registry.cleanup_released(session).entry(session.client_id).claimable(
            CleanupClaimState::Queued,
        ) == registry.entry(session.client_id).claimable(CleanupClaimState::Running),
        !registry.cleanup_released(session).is_active(session),
{
    assert(registry.entries.contains_key(session.client_id.raw()));
}

/// Whether a round has handed out cleanups as it should: each is of a session that
/// was to be cleaned up and was not in the hands of a worker, each is fenced now
/// and in the hands of one, no two are of one session, and all else is unchanged.
pub open spec fn claims_well(before: RegistryView, round: ClaimRound, now: ClientTick) -> bool {
    &&& round.registry.entries.dom() == before.entries.dom()
    &&& forall|i: int|
        0 <= i < round.cleanups.len() ==> #[trigger] handed_out(before, round, now, i)
    &&& forall|i: int, j: int|
        0 <= i < j < round.cleanups.len() ==> (#[trigger] round.cleanups[i]).session != (
        #[trigger] round.cleanups[j]).session
    &&& forall|key: u128| #[trigger]
        before.entries.contains_key(key) ==> {
            &&& round.registry.entries[key].session == before.entries[key].session
            &&& round.registry.entries[key] == before.entries[key]
                || round.registry.entries[key].claimable(CleanupClaimState::Running) is Some
            &&& round.registry.entries[key] != before.entries[key] ==> !(before.entries[key].phase
                == ClientPhase::Active && now.value < before.entries[key].expires_at.value)
        }
}

/// What holds of one cleanup that a round has handed out.
pub open spec fn handed_out(before: RegistryView, round: ClaimRound, now: ClientTick, i: int) -> bool {
    let cleanup = round.cleanups[i];
    let client = cleanup.session.client_id;
    &&& before.has(client)
    &&& before.entry(client).session == cleanup.session
    &&& before.entry(client).claimable(CleanupClaimState::Running) is None
    &&& before.entry(client).phase == ClientPhase::Active ==> before.entry(client).expires_at.value
        <= now.value
    &&& round.registry.entry(client).session == cleanup.session
    &&& round.registry.entry(client).claimable(CleanupClaimState::Running) == Some(cleanup.reason)
}

/// One more cleanup is handed out.
proof fn lemma_one_more_claim(
    before: RegistryView,
    round: ClaimRound,
    after: ClaimRound,
    now: ClientTick,
    entry: ClientEntry,
    reason: CleanupReason,
)
    requires
        before.wf(),
        claims_well(before, round, now),
        before.entries.contains_key(entry.session.client_id.raw()),
        round.registry.entry(entry.session.client_id).claimable(CleanupClaimState::Running) is None,
        round.registry.entry(entry.session.client_id).session == entry.session,
        entry.claimable(CleanupClaimState::Running) == Some(reason),
        !(round.registry.entry(entry.session.client_id).phase == ClientPhase::Active && now.value
            < round.registry.entry(entry.session.client_id).expires_at.value),
        after.registry.entries == round.registry.entries.insert(
            entry.session.client_id.raw(),
            entry,
        ),
        after.cleanups == round.cleanups.push(ClientCleanup { session: entry.session, reason }),
    ensures
        claims_well(before, after, now),
{
    let key = entry.session.client_id.raw();
    let n = round.cleanups.len() as int;
    assert(round.registry.entries[key] == before.entries[key]);
    assert(after.registry.entries.dom() =~= before.entries.dom());
    assert forall|i: int| 0 <= i < after.cleanups.len() implies handed_out(
        before,
        after,
        now,
        i,
    ) by {
        if i < n {
            assert(after.cleanups[i] == round.cleanups[i]);
            assert(handed_out(before, round, now, i));
        }
    }
    assert forall|i: int, j: int| 0 <= i < j < after.cleanups.len() implies (
    #[trigger] after.cleanups[i]).session != (#[trigger] after.cleanups[j]).session by {
        assert(after.cleanups[i] == round.cleanups[i]);
        assert(handed_out(before, round, now, i));
        if j < n {
            assert(after.cleanups[j] == round.cleanups[j]);
        }
    }
}

/// Taking up cleanups that were given back hands them out as it should.
proof fn lemma_take_ready_claims_well(
    before: RegistryView,
    round: ClaimRound,
    now: ClientTick,
    budget: nat,
)
    requires
        before.wf(),
        claims_well(before, round, now),
        round.cleanups.len() <= round.processed <= budget,
        round.registry.config == before.config,
    ensures
        claims_well(before, round.take_ready(budget), now),
        round.take_ready(budget).cleanups.len() <= round.take_ready(budget).processed <= budget,
        round.take_ready(budget).registry.config == before.config,
    decreases budget - round.processed,
{
    if round.processed < budget && round.registry.ready.len() > 0 {
        let session = round.registry.ready[0];
        let next = round.ready_step();
        if round.registry.has(session.client_id) && round.registry.entry(session.client_id).session
            == session && round.registry.entry(session.client_id).claimable(
            CleanupClaimState::Queued,
        ) is Some {
            let entry = round.registry.entry(session.client_id);
            assert(before.entries.contains_key(session.client_id.raw()));
            lemma_one_more_claim(
                before,
                round,
                next,
                now,
                entry.with_claim(CleanupClaimState::Running),
                entry.claimable(CleanupClaimState::Queued).unwrap(),
            );
        } else {
            assert(next.registry.entries == round.registry.entries);
            assert forall|i: int| 0 <= i < next.cleanups.len() implies handed_out(
                before,
                next,
                now,
                i,
            ) by {
                assert(handed_out(before, round, now, i));
            }
        }
        lemma_take_ready_claims_well(before, next, now, budget);
    }
}

/// Working off deadlines hands cleanups out as it should.
proof fn lemma_take_due_claims_well(
    before: RegistryView,
    round: ClaimRound,
    now: ClientTick,
    budget: nat,
)
    requires
        before.wf(),
        claims_well(before, round, now),
        round.cleanups.len() <= round.processed <= budget,
    ensures
        claims_well(before, round.take_due(now, budget), now),
        round.take_due(now, budget).cleanups.len() <= budget,
    decreases budget - round.processed,
{
    if round.processed < budget && round.registry.deadlines.len() > 0
        && round.registry.deadlines[0].at <= now.value {
        let record = round.registry.deadlines[0];
        let next = round.due_step(now);
        let entry = round.registry.entry(record.client);
        if round.registry.has(record.client) {
            assert(before.entries.contains_key(record.client.raw()));
        }
        if next.cleanups == round.cleanups {
            assert(next.registry.entries == round.registry.entries);
            assert forall|i: int| 0 <= i < next.cleanups.len() implies handed_out(
                before,
                next,
                now,
                i,
            ) by {
                assert(handed_out(before, round, now, i));
            }
        } else {
            assert(entry.session.client_id.raw() == record.client.raw());
            law_client_id_round_trip(entry.session.client_id, record.client, 0);
            let changed = next.registry.entry(record.client);
            lemma_one_more_claim(
                before,
                round,
                next,
                now,
                changed,
                changed.claimable(CleanupClaimState::Running).unwrap(),
            );
        }
        lemma_take_due_claims_well(before, next, now, budget);
    }
}

/// A round hands out no more cleanups than its budget and the configured one
/// allow. Those it hands out are of different sessions, each of them fenced; none
/// was in the hands of a worker, and none was of a client whose lease still ran.
/// Clients whose leases still run keep their sessions as they were.
pub proof fn law_round_hands_out_fenced_sessions_once(
    registry: RegistryView,
    now: ClientTick,
    budget: usize,
)
    requires
        registry.wf(),
    ensures
        ({
            let round = registry.claim_round(now, budget);
            &&& round.cleanups.len() <= budget
            &&& round.cleanups.len() <= registry.config.cleanup_scan_budget
            &&& forall|i: int|
                0 <= i < round.cleanups.len() ==> {
                    &&& #[trigger] handed_out(registry, round, now, i)
                    &&& !round.registry.is_active(round.cleanups[i].session)
                }
            &&& forall|i: int, j: int|
                0 <= i < j < round.cleanups.len() ==> (#[trigger] round.cleanups[i]).session != (
                #[trigger] round.cleanups[j]).session
            &&& forall|client: ClientId| #[trigger]
                registry.has(client) && registry.entry(client).phase == ClientPhase::Active
                    && now.value < registry.entry(client).expires_at.value
                    ==> round.registry.entry(client) == registry.entry(client)
        }),
{
    let limit = if budget < registry.config.cleanup_scan_budget {
        budget as nat
    } else {
        registry.config.cleanup_scan_budget as nat
    };
    let start = ClaimRound { registry, cleanups: Seq::empty(), processed: 0 };
    assert(claims_well(registry, start, now));
    lemma_take_ready_claims_well(registry, start, now, limit);
    lemma_take_due_claims_well(registry, start.take_ready(limit), now, limit);
    let round = registry.claim_round(now, budget);
    assert(claims_well(registry, round, now));
    assert forall|i: int| 0 <= i < round.cleanups.len() implies {
        &&& #[trigger] handed_out(registry, round, now, i)
        &&& !round.registry.is_active(round.cleanups[i].session)
    } by {
        assert(handed_out(registry, round, now, i));
    }
    assert forall|client: ClientId| #[trigger]
        registry.has(client) && registry.entry(client).phase == ClientPhase::Active && now.value
            < registry.entry(client).expires_at.value implies round.registry.entry(client)
        == registry.entry(client) by {
        assert(registry.entries.contains_key(client.raw()));
    }
}

/// What a round has handed out stays handed out.
proof fn lemma_take_due_keeps(round: ClaimRound, now: ClientTick, budget: nat, cleanup: ClientCleanup)
    requires
        round.cleanups.contains(cleanup),
    ensures
        round.take_due(now, budget).cleanups.contains(cleanup),
    decreases budget - round.processed,
{
    if round.processed < budget && round.registry.deadlines.len() > 0
        && round.registry.deadlines[0].at <= now.value {
        let next = round.due_step(now);
        let i = choose|i: int| 0 <= i < round.cleanups.len() && round.cleanups[i] == cleanup;
        assert(next.cleanups[i] == cleanup);
        lemma_take_due_keeps(next, now, budget, cleanup);
    }
}

proof fn lemma_take_ready_keeps(round: ClaimRound, budget: nat, cleanup: ClientCleanup)
    requires
        round.cleanups.contains(cleanup),
    ensures
        round.take_ready(budget).cleanups.contains(cleanup),
    decreases budget - round.processed,
{
    if round.processed < budget && round.registry.ready.len() > 0 {
        let next = round.ready_step();
        let i = choose|i: int| 0 <= i < round.cleanups.len() && round.cleanups[i] == cleanup;
        assert(next.cleanups[i] == cleanup);
        lemma_take_ready_keeps(next, budget, cleanup);
    }
}

/// A queued cleanup within the budget is handed out.
proof fn lemma_queued_is_taken(
    round: ClaimRound,
    budget: nat,
    session: ClientSession,
    reason: CleanupReason,
)
    requires
        round.registry.ready.contains(session),
        round.registry.ready.len() <= budget - round.processed,
        round.registry.has(session.client_id),
        round.registry.entry(session.client_id).session == session,
        round.registry.entry(session.client_id).claimable(CleanupClaimState::Queued) == Some(
            reason,
        ),
        forall|key: u128| #[trigger]
            round.registry.entries.contains_key(key)
                ==> round.registry.entries[key].session.client_id.raw() == key,
    ensures
        round.take_ready(budget).cleanups.contains(ClientCleanup { session, reason }),
    decreases budget - round.processed,
{
    let first = round.registry.ready[0];
    let next = round.ready_step();
    let cleanup = ClientCleanup { session, reason };
    if first == session {
        assert(next.cleanups[round.cleanups.len() as int] == cleanup);
        assert(next.cleanups.contains(cleanup));
        lemma_take_ready_keeps(next, budget, cleanup);
    } else {
        let i = choose|i: int|
            0 <= i < round.registry.ready.len() && round.registry.ready[i] == session;
        assert(next.registry.ready[i - 1] == session);
        if round.registry.has(first.client_id) && round.registry.entry(first.client_id).session
            == first {
            assert(round.registry.entries.contains_key(first.client_id.raw()));
            assert(first.client_id.raw() != session.client_id.raw());
        }
        lemma_queued_is_taken(next, budget, session, reason);
    }
}

/// A cleanup that a worker gives back is handed out again, for the same session
/// and the same reason, by the next round whose budget covers all that is queued.
pub proof fn law_released_cleanup_is_handed_out_again(
    registry: RegistryView,
    session: ClientSession,
    reason: CleanupReason,
    now: ClientTick,
    budget: usize,
)
    requires
        registry.wf(),
        registry.has(session.client_id),
        registry.entry(session.client_id).session == session,
        registry.entry(session.client_id).claimable(CleanupClaimState::Running) == Some(reason),
        registry.ready.len() < budget,
        registry.ready.len() < registry.config.cleanup_scan_budget,
    ensures
        ({
            let released = registry.cleanup_released(session);
            &&& released.has(session.client_id)
            &&& !released.is_active(session)
            &&& released.claim_round(now, budget).cleanups.contains(
                ClientCleanup { session, reason },
            )
        }),
{
    let released = registry.cleanup_released(session);
    let limit = if budget < registry.config.cleanup_scan_budget {
        budget as nat
    } else {
        registry.config.cleanup_scan_budget as nat
    };
    let start = ClaimRound { registry: released, cleanups: Seq::empty(), processed: 0 };
    assert(registry.entries.contains_key(session.client_id.raw()));
    assert(released.ready[registry.ready.len() as int] == session);
    lemma_queued_is_taken(start, limit, session, reason);
    lemma_take_due_keeps(
        start.take_ready(limit),
        now,
        limit,
        ClientCleanup { session, reason },
    );
}

/// A session whose cleanup was completed is gone, and no round hands it out again.
pub proof fn law_finished_cleanup_is_gone(
    registry: RegistryView,
    session: ClientSession,
    now: ClientTick,
    budget: usize,
    i: int,
)
    requires
        registry.wf(),
        registry.finished(session).wf(),
        registry.finish_result(session) is Ok,
        0 <= i < registry.finished(session).claim_round(now, budget).cleanups.len(),
    ensures
        !registry.finished(session).has(session.client_id),
        registry.finished(session).claim_round(now, budget).cleanups[i].session != session,
{
    let after = registry.finished(session);
    law_round_hands_out_fenced_sessions_once(after, now, budget);
    assert(handed_out(after, after.claim_round(now, budget), now, i));
}

/// A removal that was put off removes nothing when the client has another
/// session by now.
pub proof fn law_job_of_an_earlier_session_removes_nothing(mounts: Mounts, job: GracefulUnmountJob)
    requires
        mounts.clients.wf(),
        !mounts.clients.registry.has(job.key.session.client_id)
            || mounts.clients.registry.entry(job.key.session.client_id).session != job.key.session,
    ensures
        mounts.complete_result(job) == Ok::<
            bool,
            crate::segment::error::SegmentStateError,
        >(false),
        mounts.completed(job) == mounts,
{
    if mounts.clients.slots.contains_key(job.key.session.client_id.raw()) {
        assert(mounts.clients.registry.entries.contains_key(job.key.session.client_id.raw()));
    }
}

/// A removal that was put off removes nothing when the segment was attached
/// anew since: the new attachment is another one.
pub proof fn law_job_of_an_earlier_attachment_removes_nothing(
    clients: ClientsView,
    before: PoolView,
    after: PoolView,
    spec: SegmentSpec,
    segment: AttachOutcome,
    job: GracefulUnmountJob,
)
    requires
        clients.wf(),
        before.wf(),
        after.wf(),
        before.attach_outcome(
            after,
            spec@,
            SegmentState::Quiesced,
            Ok::<AttachOutcome, AttachError>(segment),
        ),
        segment is Attached,
        job.key.segment == spec.identity.id,
        job.incarnation.incarnation < before.next_incarnation,
    ensures
        mounts_of(clients, after).complete_result(job) == Ok::<
            bool,
            crate::segment::error::SegmentStateError,
        >(false),
        mounts_of(clients, after).completed(job) == mounts_of(clients, after),
{
    let i = choose|i: int|
        {
            &&& 0 <= i <= before.segments.len()
            &&& #[trigger] after.segments[i].spec@ == spec@
            &&& after.segments == before.segments.insert(i, after.segments[i])
            &&& after.segments[i].incarnation == before.next_incarnation
            &&& after.segments[i].state == SegmentState::Quiesced
            &&& after.segments[i].space.is_fresh(before.config, spec@.region.size)
        };
    lemma_position(after, i);
}

/// Unmounting twice is unmounting once: the second request finds the segment
/// absent and changes nothing.
pub proof fn law_unmount_is_idempotent(mounts: Mounts, client: ClientId, id: SegmentId)
    requires
        mounts.clients.wf(),
        mounts.pool.wf(),
        mounts.unmounted(client, id).pool.wf(),
        mounts.unmount_result(client, id) is Ok,
    ensures
        mounts.unmounted(client, id).pool.position(id) is None,
        mounts.unmounted(client, id).unmount_result(client, id) matches Ok(outcome) && outcome
            == SegmentUnmountOutcome::AlreadyAbsent,
        mounts.unmounted(client, id).unmounted(client, id) == mounts.unmounted(client, id),
{
    if mounts.pool.position(id) is Some {
        let i = mounts.pool.position(id).unwrap();
        lemma_position(mounts.pool, i);
        let hidden = mounts.pool.after_quiesce(client, id);
        assert(hidden.segments.len() == mounts.pool.segments.len());
        assert forall|j: int| 0 <= j < hidden.segments.len() implies (
        #[trigger] hidden.segments[j]).id() == mounts.pool.segments[j].id() by {}
        assert(hidden.position(id) is Some) by {
            assert(hidden.segments[i].id() == id);
        }
        let k = hidden.position(id).unwrap();
        assert(hidden.segments[k].id() == id);
        assert(mounts.pool.segments[k].id() == id);
        lemma_position(mounts.pool, k);
        assert(k == i);
        assert(hidden.removal_fault(client, id) is None);
        let after = mounts.unmounted(client, id).pool;
        assert(after.segments == hidden.segments.remove(i));
        if after.position(id) is Some {
            let j = after.position(id).unwrap();
            let q = if j < i { j } else { j + 1 };
            assert(after.segments[j] == hidden.segments[q]);
            assert(mounts.pool.segments[q].id() == id);
            lemma_position(mounts.pool, q);
        }
    }
}

/// A removal that is put off hides its segment at once. Where nothing else is put
/// off, asking again succeeds and never postpones it: the next deadline is the
/// earlier of the two, and a round before that leaves the pool alone.
pub proof fn law_graceful_unmount_waits_for_the_earlier_request(
    mounts: Mounts,
    client: ClientId,
    id: SegmentId,
    first: ClientTick,
    second: ClientTick,
    now: ClientTick,
)
    requires
        mounts.clients.wf(),
        mounts.pool.wf(),
        mounts.scheduled(client, id, first).pool.wf(),
        mounts.schedule_result(client, id) is Ok,
        mounts.clients.graceful.pending.dom() == Set::<GracefulUnmountKey>::empty(),
    ensures
        ({
            let once = mounts.scheduled(client, id, first);
            let twice = once.scheduled(client, id, second);
            let next = twice.clients.graceful.pruned().deadlines;
            &&& once.pool.found(id) matches Some(segment) && segment.state == SegmentState::Quiesced
            &&& once.schedule_result(client, id) is Ok
            &&& twice.pool == once.pool
            &&& next.len() > 0
            &&& next[0].at == earlier(first, second).value
            &&& now.value < earlier(first, second).value ==> twice.graceful_round(now).mounts.pool
                == twice.pool
        }),
{
    let once = mounts.scheduled(client, id, first);
    let key = mounts.graceful_key(client, id);
    let incarnation = mounts.incarnation_of(id);
    let p = mounts.pool.position(id).unwrap();
    assert(!mounts.clients.graceful.pending.dom().contains(key));
    assert(mounts.pool.segments[p].state == SegmentState::Accepting);
    lemma_found_after_quiesce(mounts.pool, once.pool, client, id);
    assert(once.pool.found(id) is Some);
    assert(once.incarnation_of(id) == incarnation);
    assert(once.clients.graceful.holds(key, incarnation));
    law_next_deadline_is_the_earlier(
        mounts.clients.graceful,
        key,
        incarnation,
        first,
        second,
    );
    let twice = once.scheduled(client, id, second);
    let start = ClaimWalk { queue: twice.clients.graceful, jobs: Seq::empty() };
    let budget = twice.clients.registry.config.cleanup_scan_budget as nat;
    if now.value < earlier(first, second).value {
        assert(start.claim(now, budget).jobs == Seq::<GracefulUnmountJob>::empty());
    }
}

/// After the cleanup of claimed sessions nothing of them is left: the clients
/// are unknown, nothing of theirs is mounted, and the pool holds no segment of
/// theirs.
pub proof fn law_cleanup_leaves_nothing(
    mounts: Mounts,
    sessions: Seq<ClientSession>,
    i: int,
)
    requires
        mounts.clients.wf(),
        claims_held(mounts.clients.registry, sessions),
        0 <= i < sessions.len(),
    ensures
        !mounts.clients.cleaned(sessions).registry.has(sessions[i].client_id),
        !mounts.clients.cleaned(sessions).slots.contains_key(sessions[i].client_id.raw()),
        forall|j: int| #![trigger mounts.pool.invalidated(clients_of(sessions)).segments[j]]
            0 <= j < mounts.pool.invalidated(clients_of(sessions)).segments.len()
                ==> mounts.pool.invalidated(clients_of(sessions)).segments[j].owner()
                != sessions[i].client_id,
{
    let owners = clients_of(sessions);
    assert(owners[i] == sessions[i].client_id);
    let number = |session: ClientSession| session.client_id.raw();
    assert(sessions.map_values(number)[i] == sessions[i].client_id.raw());
    assert(raws_of(sessions).contains(sessions[i].client_id.raw()));
    lemma_gone(mounts.clients.registry, sessions, sessions.len() as int, i);
    assert(sessions.take(sessions.len() as int) =~= sessions);
    let kept = mounts.pool.without_owners(owners);
    let keep = |segment: crate::segment::pool::MountedSegment|
        !PoolView::owned_by(owners, segment);
    let after = mounts.pool.invalidated(owners);
    mounts.pool.segments.lemma_filter_len(keep);
    if kept.len() == mounts.pool.segments.len() {
        lemma_filter_all(mounts.pool.segments, keep);
    }
    assert(after.segments == kept);
    assert forall|j: int| #![trigger after.segments[j]]
        0 <= j < after.segments.len() implies after.segments[j].owner()
        != sessions[i].client_id by {
        mounts.pool.segments.lemma_filter_pred(keep, j);
        assert(keep(kept[j]));
        if after.segments[j].owner() == sessions[i].client_id {
            assert(owners.contains(after.segments[j].owner()));
        }
    }
}

/// A client whose cleanup was completed is gone.
proof fn lemma_gone(registry: RegistryView, sessions: Seq<ClientSession>, done: int, i: int)
    requires
        claims_held(registry, sessions),
        0 <= i < done <= sessions.len(),
    ensures
        !registry.finished_all(sessions.take(done)).has(sessions[i].client_id),
    decreases done,
{
    assert(sessions.take(done).drop_last() =~= sessions.take(done - 1));
    assert(sessions.take(done).last() == sessions[done - 1]);
    if i == done - 1 {
        lemma_others_stay(registry, sessions, done - 1, done - 1);
    } else {
        lemma_gone(registry, sessions, done - 1, i);
    }
}

} // verus!
