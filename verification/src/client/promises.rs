//! What clients are promised of their sessions.

use super::error::ClientLifecycleError;
use super::lifecycle::{
    deadline_record, tracked_by, ActivateOutcome, ClaimRound, CleanupClaimState, CleanupReason,
    ClientCleanup, ClientEntry, ClientPhase, ClientSession, ClientState, ClientTick, HeartbeatOutcome,
    RegistryView,
};
use super::timer::{
    in_order, lemma_slot_range, lemma_with_record_in_order, record_before, slot_for, with_record,
    TimerRecord,
};
use crate::segment::identity::{law_client_id_round_trip, lemma_joined, ClientId};
use vstd::prelude::*;

verus! {

/// Whether a lease that ended at one time ends at another after it was renewed at
/// `now`: a whole lease from now on, and no earlier than before.
pub open spec fn is_renewed(before: ClientTick, after: ClientTick, now: ClientTick, ttl: u64) -> bool {
    &&& after.value >= before.value
    &&& after.value >= now.value + ttl || after.value == u64::MAX
    &&& after.value == before.value || after.value == now.value + ttl || (after.value == u64::MAX
        && now.value + ttl > u64::MAX)
}

/// What activating a client comes to. An unknown client gets a session of its own,
/// with a whole lease, while there is room. A client whose lease runs keeps its
/// session, and its lease is renewed. A client whose lease is over, or whose session
/// is being cleaned up, is refused; and the first refusal fences its session. A nil
/// id and a full registry are refused. No other client is touched.
pub proof fn law_activation(registry: RegistryView, client: ClientId, now: ClientTick)
    requires
        registry.wf(),
    ensures
        ({
            let result = registry.activate_result(client, now);
            let after = registry.activated(client, now);
            let known = registry.entries.contains_key(client.raw());
            let was = registry.entries[client.raw()];
            let entry = after.entries[client.raw()];
            let nil = client.high == 0 && client.low == 0;
            let full = registry.entries.dom().len() >= registry.config.max_clients;
            let ttl = registry.config.ttl_ticks;
            &&& nil ==> result == Err::<ActivateOutcome, ClientLifecycleError>(
                ClientLifecycleError::NilClientId,
            ) && after == registry
            &&& !nil && !known && full ==> result == Err::<ActivateOutcome, ClientLifecycleError>(
                ClientLifecycleError::CapacityExceeded { max_clients: registry.config.max_clients },
            ) && after == registry
            &&& !nil && !known && !full && registry.next_generation < u64::MAX ==> {
                &&& result is Ok && result->Ok_0 is Activated
                &&& result->Ok_0->Activated_0.client_id == client
                &&& result->Ok_0->Activated_0.generation == registry.next_generation
                &&& after.next_generation == registry.next_generation + 1
                &&& entry.session == result->Ok_0->Activated_0
                &&& entry.phase == ClientPhase::Active
                &&& entry.expires_at.value == now.value + ttl || (entry.expires_at.value
                    == u64::MAX && now.value + ttl > u64::MAX)
            }
            &&& !nil && !known && !full && registry.next_generation == u64::MAX ==> result is Err
                && after == registry
            &&& known && was.phase == ClientPhase::Active && now.value < was.expires_at.value ==> {
                &&& result == Ok::<ActivateOutcome, ClientLifecycleError>(
                    ActivateOutcome::AlreadyActive(was.session),
                )
                &&& entry.session == was.session
                &&& entry.phase == ClientPhase::Active
                &&& is_renewed(was.expires_at, entry.expires_at, now, ttl)
                &&& after.next_generation == registry.next_generation
            }
            &&& known && was.phase == ClientPhase::Active && now.value >= was.expires_at.value ==> {
                &&& result == Err::<ActivateOutcome, ClientLifecycleError>(
                    ClientLifecycleError::CleanupInProgress { state: ClientState::Expired },
                )
                &&& entry.session == was.session
                &&& entry.phase is CleanupPending
                &&& entry.phase->reason == CleanupReason::HeartbeatExpired
            }
            &&& known && was.phase is CleanupPending ==> result is Err && result->Err_0
                is CleanupInProgress && after == registry
            &&& forall|key: u128|
                key != client.raw() ==> #[trigger] after.entries.contains_key(key)
                    == registry.entries.contains_key(key) && after.entries[key]
                    == registry.entries[key]
        }),
{
    lemma_joined(client.high, client.low);
    if registry.entries.contains_key(client.raw()) {
        law_client_id_round_trip(registry.entry(client).session.client_id, client, 0);
    }
}

/// What a heartbeat comes to. It keeps a session alive exactly while its lease runs,
/// and renews the lease then. The first heartbeat after the lease is over fences the
/// session. In every other case it changes nothing. No other client is touched.
pub proof fn law_heartbeat(registry: RegistryView, client: ClientId, now: ClientTick)
    requires
        registry.wf(),
    ensures
        ({
            let result = registry.heartbeat_result(client, now);
            let after = registry.heartbeated(client, now);
            let known = registry.entries.contains_key(client.raw());
            let was = registry.entries[client.raw()];
            let entry = after.entries[client.raw()];
            let active = known && was.phase == ClientPhase::Active;
            &&& active && now.value < was.expires_at.value ==> {
                &&& result == HeartbeatOutcome::Alive(was.session)
                &&& entry.session == was.session
                &&& entry.phase == ClientPhase::Active
                &&& is_renewed(
                    was.expires_at,
                    entry.expires_at,
                    now,
                    registry.config.ttl_ticks,
                )
            }
            &&& active && now.value >= was.expires_at.value ==> {
                &&& result == HeartbeatOutcome::NeedRemount
                &&& entry.session == was.session
                &&& entry.phase is CleanupPending
                &&& entry.phase->reason == CleanupReason::HeartbeatExpired
                &&& entry.expires_at == was.expires_at
            }
            &&& !active ==> result == HeartbeatOutcome::NeedRemount && after == registry
            &&& forall|key: u128|
                key != client.raw() ==> #[trigger] after.entries.contains_key(key)
                    == registry.entries.contains_key(key) && after.entries[key]
                    == registry.entries[key]
        }),
{
    if registry.entries.contains_key(client.raw()) {
        law_client_id_round_trip(registry.entry(client).session.client_id, client, 0);
    }
}

/// A session can be rolled back, drained and cleaned up only under its own
/// generation. Rolling back forgets an active session. Draining takes an active
/// session into cleanup, once: while that cleanup runs, draining it again hands out
/// nothing. A cleanup is finished only where it runs, and the client is then unknown.
pub proof fn law_sessions_end_once(
    registry: RegistryView,
    session: ClientSession,
    reason: CleanupReason,
    again: CleanupReason,
)
    requires
        registry.wf(),
    ensures
        ({
            let client = session.client_id;
            let known = registry.entries.contains_key(client.raw());
            let was = registry.entries[client.raw()];
            let drained = registry.drained(session, reason);
            let finished = registry.finished(session);
            &&& known && was.session != session ==> {
                &&& registry.rollback_result(session) is Err
                &&& registry.drain_result(session, reason) is Err
                &&& registry.finish_result(session) is Err
                &&& drained == registry && finished == registry
                &&& registry.cleanup_released(session) == registry
            }
            &&& !known ==> registry.rollback_result(session) is Err && registry.drain_result(
                session,
                reason,
            ) is Err && drained == registry && finished == registry
            &&& registry.rollback_result(session) is Ok <==> known && was.session == session
                && was.phase == ClientPhase::Active
            &&& known && was.session == session && was.phase == ClientPhase::Active ==> {
                &&& registry.drain_result(session, reason) == Ok::<
                    Option<ClientCleanup>,
                    ClientLifecycleError,
                >(Some(ClientCleanup { session, reason }))
                &&& drained.entries[client.raw()].phase == (ClientPhase::CleanupPending {
                    reason,
                    claim: CleanupClaimState::Running,
                })
                &&& drained.entries[client.raw()].session == session
                &&& drained.drain_result(session, again) == Ok::<
                    Option<ClientCleanup>,
                    ClientLifecycleError,
                >(None)
                &&& registry.finish_result(session) is Err
                &&& drained.finish_result(session) is Ok
                &&& !drained.finished(session).entries.contains_key(client.raw())
            }
            &&& known && was.session == session && registry.finish_result(session) is Ok ==> {
                &&& was.phase is CleanupPending
                &&& was.phase->claim == CleanupClaimState::Running
                &&& !finished.entries.contains_key(client.raw())
            }
            &&& forall|key: u128|
                key != client.raw() ==> #[trigger] finished.entries.contains_key(key)
                    == registry.entries.contains_key(key) && finished.entries[key]
                    == registry.entries[key]
            &&& !registry.without(client).entries.contains_key(client.raw())
        }),
{
    if registry.entries.contains_key(session.client_id.raw()) {
        law_client_id_round_trip(
            registry.entry(session.client_id).session.client_id,
            session.client_id,
            0,
        );
    }
}

/// A client is active exactly where it is known and not fenced.
pub proof fn law_active_clients(registry: RegistryView, client: ClientId)
    requires
        registry.wf(),
    ensures
        ({
            let known = registry.entries.contains_key(client.raw());
            let was = registry.entries[client.raw()];
            let result = registry.active_result(client);
            &&& known && was.phase == ClientPhase::Active ==> result == Ok::<
                ClientSession,
                ClientLifecycleError,
            >(was.session)
            &&& !known || was.phase is CleanupPending ==> result is Err
        }),
{
    lemma_joined(client.high, client.low);
}

/// Records that are due come before those that are not.
proof fn lemma_due_stay_first(
    records: Seq<TimerRecord>,
    record: TimerRecord,
    now: ClientTick,
    place: int,
)
    requires
        in_order(records),
        0 <= place < records.len(),
        records[place].at <= now.value,
        record.at > now.value,
    ensures
        slot_for(records, record) > place,
        with_record(records, record)[place] == records[place],
    decreases records.len(),
{
    lemma_slot_range(records, record);
    let rest = records.drop_first();
    if place > 0 {
        assert(!record_before(records[place], records[0]));
        assert forall|i: int, j: int| 0 <= i < j < rest.len() implies !record_before(
            #[trigger] rest[j],
            #[trigger] rest[i],
        ) by {
            assert(!record_before(records[j + 1], records[i + 1]));
        }
        assert(rest[place - 1] == records[place]);
        lemma_due_stay_first(rest, record, now, place - 1);
    } else {
        lemma_slot_range(rest, record);
    }
}

proof fn lemma_ready_leave_active(round: ClaimRound, budget: nat, client: ClientId)
    requires
        round.registry.entries.contains_key(client.raw()),
        round.registry.entry(client).session.client_id == client,
        round.registry.entry(client).phase == ClientPhase::Active,
        forall|key: u128| #[trigger]
            round.registry.entries.contains_key(key)
                ==> round.registry.entries[key].session.client_id.raw() == key,
    ensures
        ({
            let end = round.take_ready(budget);
            &&& end.registry.deadlines == round.registry.deadlines
            &&& end.registry.entries.contains_key(client.raw())
            &&& end.registry.entry(client) == round.registry.entry(client)
            &&& end.processed <= round.processed + round.registry.ready.len()
            &&& forall|key: u128| #[trigger]
                end.registry.entries.contains_key(key)
                    ==> end.registry.entries[key].session.client_id.raw() == key
        }),
    decreases budget - round.processed,
{
    if round.processed < budget && round.registry.ready.len() > 0 {
        lemma_ready_leave_active(round.ready_step(), budget, client);
    }
}

proof fn lemma_due_are_taken(
    round: ClaimRound,
    now: ClientTick,
    budget: nat,
    client: ClientId,
    place: int,
)
    requires
        round.registry.entries.contains_key(client.raw()),
        round.registry.entry(client).session.client_id == client,
        round.registry.entry(client).phase == ClientPhase::Active,
        round.registry.entry(client).expires_at.value <= now.value,
        forall|key: u128| #[trigger]
            round.registry.entries.contains_key(key)
                ==> round.registry.entries[key].session.client_id.raw() == key,
        in_order(round.registry.deadlines),
        0 <= place < round.registry.deadlines.len(),
        round.registry.deadlines[place].client == client,
        round.registry.deadlines[place].generation == round.registry.entry(
            client,
        ).session.generation,
        round.registry.deadlines[place].at <= now.value,
        round.processed + place < budget,
    ensures
        round.take_due(now, budget).cleanups.contains(
            ClientCleanup {
                session: round.registry.entry(client).session,
                reason: CleanupReason::HeartbeatExpired,
            },
        ),
        round.take_due(now, budget).registry.entries.contains_key(client.raw()),
        round.take_due(now, budget).registry.entry(client).phase == (ClientPhase::CleanupPending {
            reason: CleanupReason::HeartbeatExpired,
            claim: CleanupClaimState::Running,
        }),
    decreases place,
{
    let deadlines = round.registry.deadlines;
    let first = deadlines[0];
    if place > 0 {
        assert(!record_before(deadlines[place], deadlines[0]));
    }
    let next = round.due_step(now);
    let rest = deadlines.drop_first();
    let entry = round.registry.entry(client);
    let wanted = ClientCleanup {
        session: entry.session,
        reason: CleanupReason::HeartbeatExpired,
    };
    if first.client.raw() == client.raw() {
        law_client_id_round_trip(first.client, client, 0);
    }
    if first.client == client && first.generation == entry.session.generation {
        assert(next.cleanups.last() == wanted);
        lemma_taken_stay_taken(next, now, budget, client, wanted, next.cleanups.len() - 1);
    } else {
        assert(rest[place - 1] == deadlines[place]);
        assert forall|i: int, j: int| 0 <= i < j < rest.len() implies !record_before(
            #[trigger] rest[j],
            #[trigger] rest[i],
        ) by {
            assert(!record_before(deadlines[j + 1], deadlines[i + 1]));
        }
        let other = round.registry.entry(first.client);
        if next.registry.deadlines != rest {
            let again = deadline_record(other.session, other.expires_at.value);
            lemma_due_stay_first(rest, again, now, place - 1);
            lemma_insert_in_order(rest, again);
            lemma_slot_range(rest, again);
        }
        lemma_due_are_taken(next, now, budget, client, place - 1);
    }
}

proof fn lemma_insert_in_order(records: Seq<TimerRecord>, record: TimerRecord)
    requires
        in_order(records),
    ensures
        in_order(with_record(records, record)),
{
    lemma_slot_is_a_gap(records, record);
    lemma_with_record_in_order(records, record, slot_for(records, record));
}

proof fn lemma_slot_is_a_gap(records: Seq<TimerRecord>, record: TimerRecord)
    ensures
        ({
            let place = slot_for(records, record);
            &&& 0 <= place <= records.len()
            &&& forall|i: int| 0 <= i < place ==> !record_before(record, #[trigger] records[i])
            &&& place < records.len() ==> record_before(record, records[place])
        }),
    decreases records.len(),
{
    if records.len() > 0 && !record_before(record, records[0]) {
        let rest = records.drop_first();
        lemma_slot_is_a_gap(rest, record);
        let place = slot_for(records, record);
        assert forall|i: int| 0 <= i < place implies !record_before(
            record,
            #[trigger] records[i],
        ) by {
            if i > 0 {
                assert(rest[i - 1] == records[i]);
            }
        }
    }
}

proof fn lemma_taken_stay_taken(
    round: ClaimRound,
    now: ClientTick,
    budget: nat,
    client: ClientId,
    cleanup: ClientCleanup,
    place: int,
)
    requires
        0 <= place < round.cleanups.len(),
        round.cleanups[place] == cleanup,
        round.registry.entries.contains_key(client.raw()),
        round.registry.entry(client).phase == (ClientPhase::CleanupPending {
            reason: CleanupReason::HeartbeatExpired,
            claim: CleanupClaimState::Running,
        }),
        forall|key: u128| #[trigger]
            round.registry.entries.contains_key(key)
                ==> round.registry.entries[key].session.client_id.raw() == key,
    ensures
        round.take_due(now, budget).cleanups.contains(cleanup),
        round.take_due(now, budget).registry.entries.contains_key(client.raw()),
        round.take_due(now, budget).registry.entry(client).phase == (ClientPhase::CleanupPending {
            reason: CleanupReason::HeartbeatExpired,
            claim: CleanupClaimState::Running,
        }),
    decreases budget - round.processed,
{
    if round.processed >= budget || round.registry.deadlines.len() == 0
        || round.registry.deadlines[0].at > now.value {
        assert(round.cleanups[place] == cleanup);
    } else {
        let next = round.due_step(now);
        assert(next.cleanups[place] == cleanup);
        lemma_taken_stay_taken(next, now, budget, client, cleanup, place);
    }
}

/// Clients that fall silent are cleaned up: a round whose budget covers all that is
/// queued hands out the cleanup of every active client whose lease is over, for want
/// of heartbeats, and its session is fenced from then on.
pub proof fn law_silent_clients_are_cleaned_up(
    registry: RegistryView,
    now: ClientTick,
    budget: usize,
    client: ClientId,
)
    requires
        registry.wf(),
        registry.entries.contains_key(client.raw()),
        registry.entries[client.raw()].phase == ClientPhase::Active,
        registry.entries[client.raw()].expires_at.value <= now.value,
        registry.ready.len() + registry.deadlines.len() <= budget,
        registry.ready.len() + registry.deadlines.len() <= registry.config.cleanup_scan_budget,
    ensures
        ({
            let round = registry.claim_round(now, budget);
            &&& round.cleanups.contains(
                ClientCleanup {
                    session: registry.entries[client.raw()].session,
                    reason: CleanupReason::HeartbeatExpired,
                },
            )
            &&& round.registry.entries[client.raw()].phase is CleanupPending
        }),
{
    let entry = registry.entry(client);
    law_client_id_round_trip(entry.session.client_id, client, 0);
    assert(registry.is_tracked(registry.entries[client.raw()]));
    let record = choose|record: TimerRecord|
        #![trigger registry.deadlines.contains(record)]
        registry.deadlines.contains(record) && tracked_by(
            record,
            entry.session,
            entry.expires_at,
        );
    let place = choose|place: int|
        0 <= place < registry.deadlines.len() && registry.deadlines[place] == record;
    let limit = if budget < registry.config.cleanup_scan_budget {
        budget as nat
    } else {
        registry.config.cleanup_scan_budget as nat
    };
    let start = ClaimRound { registry, cleanups: Seq::empty(), processed: 0 };
    lemma_ready_leave_active(start, limit, client);
    lemma_due_are_taken(start.take_ready(limit), now, limit, client, place);
}

/// Draining sessions fences every one of them: where all of them could be drained, none
/// is active afterwards, and each that was active is handed out for cleanup.
pub proof fn law_draining_sessions(
    registry: RegistryView,
    sessions: Seq<ClientSession>,
    reason: CleanupReason,
    i: int,
)
    requires
        registry.wf(),
        0 <= i < sessions.len(),
        registry.drained_all(sessions, reason).fault is None,
    ensures
        ({
            let walk = registry.drained_all(sessions, reason);
            let key = sessions[i].client_id.raw();
            &&& registry.entries.contains_key(key) && registry.entries[key].session == sessions[i]
            &&& walk.registry.entries.contains_key(key)
            &&& walk.registry.entries[key].session == sessions[i]
            &&& walk.registry.entries[key].phase is CleanupPending
        }),
    decreases sessions.len(),
{
    lemma_drained_all(registry, sessions, reason);
    let fewer = sessions.drop_last();
    let before = registry.drained_all(fewer, reason);
    let last = sessions.last();
    lemma_drained_all(registry, fewer, reason);
    assert(before.fault is None);
    if i < fewer.len() {
        law_draining_sessions(registry, fewer, reason, i);
        assert(fewer[i] == sessions[i]);
    } else {
        assert(sessions[i] == last);
        assert(before.registry.has(last.client_id));
        assert(registry.entries.contains_key(last.client_id.raw()));
    }
}

proof fn lemma_drained_all(
    registry: RegistryView,
    sessions: Seq<ClientSession>,
    reason: CleanupReason,
)
    requires
        registry.wf(),
    ensures
        ({
            let walk = registry.drained_all(sessions, reason);
            forall|key: u128| #[trigger]
                walk.registry.entries.contains_key(key) == registry.entries.contains_key(key) && (
                registry.entries.contains_key(key) ==> walk.registry.entries[key].session
                    == registry.entries[key].session && (registry.entries[key].phase
                    is CleanupPending ==> walk.registry.entries[key].phase is CleanupPending))
        }),
    decreases sessions.len(),
{
    if sessions.len() > 0 {
        lemma_drained_all(registry, sessions.drop_last(), reason);
        let before = registry.drained_all(sessions.drop_last(), reason);
        let last = sessions.last();
        let walk = registry.drained_all(sessions, reason);
        assert forall|key: u128| #[trigger]
            walk.registry.entries.contains_key(key) == registry.entries.contains_key(key) && (
            registry.entries.contains_key(key) ==> walk.registry.entries[key].session
                == registry.entries[key].session && (registry.entries[key].phase is CleanupPending
                ==> walk.registry.entries[key].phase is CleanupPending)) by {
            assert(before.registry.entries.contains_key(key) == registry.entries.contains_key(key));
            assert(before.registry.entries.contains_key(last.client_id.raw())
                == registry.entries.contains_key(last.client_id.raw()));
        }
    }
}

/// A session that is fenced for want of heartbeats is expired; one that is fenced for
/// any other reason is draining.
pub proof fn law_states_of_sessions(entry: ClientEntry)
    ensures
        entry.phase == ClientPhase::Active <==> entry.spec_state() == ClientState::Active,
        entry.phase is CleanupPending && entry.phase->reason == CleanupReason::HeartbeatExpired
            ==> entry.spec_state() == ClientState::Expired,
        entry.phase is CleanupPending && entry.phase->reason != CleanupReason::HeartbeatExpired
            ==> entry.spec_state() == ClientState::Draining,
{
}

} // verus!
