//! The registry of client sessions.

use super::config::ClientLifecycleConfig;
use super::error::{ClientLifecycleConfigError, ClientLifecycleError};
use super::timer::{
    in_order, lemma_slot_range, slot_for, with_record, TimerQueue, TimerRecord,
};
use crate::segment::identity::{law_client_id_round_trip, lemma_joined, ClientId, SegmentId};
use std::collections::{HashMap, VecDeque};
use vstd::prelude::*;

verus! {

/// A moment of the registry's clock.
#[derive(Clone, Copy, Debug, Eq, Hash, Ord, PartialEq, PartialOrd, Structural)]
pub struct ClientTick {
    pub value: u64,
}

impl Default for ClientTick {
    fn default() -> (tick: Self)
        ensures
            tick.value == 0,
    {
        Self { value: 0 }
    }
}

/// A sum that stops at the largest value.
pub open spec fn capped_sum(value: u64, delta: u64) -> u64 {
    if value + delta > u64::MAX {
        u64::MAX
    } else {
        (value + delta) as u64
    }
}

impl ClientTick {
    /// The moment `delta` ticks later, or the last one.
    pub open spec fn later(self, delta: u64) -> ClientTick {
        ClientTick { value: capped_sum(self.value, delta) }
    }

    pub fn new(value: u64) -> (tick: Self)
        ensures
            tick.value == value,
    {
        Self { value }
    }

    pub fn get(self) -> (value: u64)
        ensures
            value == self.value,
    {
        self.value
    }

    pub fn saturating_add(self, delta: u64) -> (tick: Self)
        ensures
            tick == self.later(delta),
    {
        Self { value: self.value.saturating_add(delta) }
    }
}

/// One server-side incarnation of a client.
///
/// Cleanup and future mailbox/task ownership use the complete session rather
/// than a bare [`ClientId`], so work from an older incarnation cannot affect a
/// newly activated client with the same ID.
#[derive(Clone, Copy, Debug, Eq, Hash, PartialEq, Structural)]
pub struct ClientSession {
    pub client_id: ClientId,
    pub generation: u64,
}

impl ClientSession {
    pub fn client_id(self) -> (id: ClientId)
        ensures
            id == self.client_id,
    {
        self.client_id
    }

    pub fn generation(self) -> (generation: u64)
        ensures
            generation == self.generation,
    {
        self.generation
    }
}

/// The state of a client's session.
#[derive(Clone, Copy, Debug, Eq, Hash, PartialEq, Structural)]
pub enum ClientState {
    Active,
    Draining,
    Expired,
}

/// What activating a client came to.
#[derive(Clone, Copy, Debug, Eq, PartialEq, Structural)]
pub enum ActivateOutcome {
    Activated(ClientSession),
    AlreadyActive(ClientSession),
}

impl ActivateOutcome {
    pub open spec fn the_session(self) -> ClientSession {
        match self {
            ActivateOutcome::Activated(session) => session,
            ActivateOutcome::AlreadyActive(session) => session,
        }
    }

    pub fn session(self) -> (session: ClientSession)
        ensures
            session == self.the_session(),
    {
        match self {
            Self::Activated(session) => session,
            Self::AlreadyActive(session) => session,
        }
    }
}

/// What a heartbeat came to.
#[derive(Clone, Copy, Debug, Eq, PartialEq, Structural)]
pub enum HeartbeatOutcome {
    Alive(ClientSession),
    NeedRemount,
}

/// Why a session is cleaned up.
#[derive(Clone, Copy, Debug, Eq, Hash, PartialEq, Structural)]
pub enum CleanupReason {
    GracefulUnmount,
    HeartbeatExpired,
    ServerShutdown,
}

/// Exclusive ownership of one fenced session's cleanup.
///
/// A claim is either completed with [`ClientRegistry::finish_cleanup`] or given
/// back with [`ClientRegistry::release_cleanup`], which makes it available to
/// the next maintenance round. This keeps cancellation and transient runtime
/// failures from losing cleanup work while ensuring only one worker can clean a
/// session at a time.
#[derive(Debug)]
pub struct ClientCleanup {
    pub session: ClientSession,
    pub reason: CleanupReason,
}

impl ClientCleanup {
    pub fn session(&self) -> (session: ClientSession)
        ensures
            session == self.session,
    {
        self.session
    }

    pub fn reason(&self) -> (reason: CleanupReason)
        ensures
            reason == self.reason,
    {
        self.reason
    }

    /// Completes cleanup and removes the fenced session from the registry. A
    /// cleanup that cannot be completed is given back.
    pub fn finish(self, registry: &mut ClientRegistry) -> (done: Result<(), ClientLifecycleError>)
        requires
            old(registry).wf(),
        ensures
            final(registry).wf(),
            done == old(registry)@.finish_result(self.session),
            final(registry)@ == if done is Ok {
                old(registry)@.finished(self.session)
            } else {
                old(registry)@.cleanup_released(self.session)
            },
    {
        let session = self.session;
        match registry.finish_cleanup(session) {
            Ok(()) => Ok(()),
            Err(error) => {
                registry.release_cleanup(session);
                Err(error)
            },
        }
    }
}

/// Who works on a session's cleanup.
#[derive(Clone, Copy, Debug, Eq, PartialEq, Structural)]
pub enum CleanupClaimState {
    Ready,
    Queued,
    Running,
}

/// The phase of a session.
#[derive(Clone, Copy, Debug, Eq, PartialEq, Structural)]
pub enum ClientPhase {
    Active,
    CleanupPending { reason: CleanupReason, claim: CleanupClaimState },
}

/// One session.
#[derive(Clone, Copy, Debug, Eq, PartialEq, Structural)]
pub struct ClientEntry {
    pub session: ClientSession,
    pub phase: ClientPhase,
    pub expires_at: ClientTick,
}

impl ClientEntry {
    pub open spec fn spec_state(self) -> ClientState {
        match self.phase {
            ClientPhase::Active => ClientState::Active,
            ClientPhase::CleanupPending { reason, claim } => if reason
                == CleanupReason::HeartbeatExpired {
                ClientState::Expired
            } else {
                ClientState::Draining
            },
        }
    }

    /// The session after the client was heard of.
    pub open spec fn refreshed(self, now: ClientTick, ttl_ticks: u64) -> ClientEntry {
        let expires_at = now.later(ttl_ticks);
        ClientEntry {
            expires_at: if self.expires_at.value < expires_at.value {
                expires_at
            } else {
                self.expires_at
            },
            ..self
        }
    }

    /// The session after it was fenced.
    pub open spec fn fenced(self, reason: CleanupReason) -> ClientEntry {
        ClientEntry {
            phase: ClientPhase::CleanupPending { reason, claim: CleanupClaimState::Ready },
            ..self
        }
    }

    /// The reason for which the session's cleanup is in a claim state.
    pub open spec fn claimable(self, expected: CleanupClaimState) -> Option<CleanupReason> {
        match self.phase {
            ClientPhase::Active => None,
            ClientPhase::CleanupPending { reason, claim } => if claim == expected {
                Some(reason)
            } else {
                None
            },
        }
    }

    /// The session with its cleanup in another claim state.
    pub open spec fn with_claim(self, claim: CleanupClaimState) -> ClientEntry {
        match self.phase {
            ClientPhase::Active => self,
            ClientPhase::CleanupPending {
                reason,
                claim: _,
            } => ClientEntry { phase: ClientPhase::CleanupPending { reason, claim }, ..self },
        }
    }

    fn state(&self) -> (state: ClientState)
        ensures
            state == self.spec_state(),
    {
        match self.phase {
            ClientPhase::Active => ClientState::Active,
            ClientPhase::CleanupPending { reason, claim: _ } => {
                if reason == CleanupReason::HeartbeatExpired {
                    ClientState::Expired
                } else {
                    ClientState::Draining
                }
            },
        }
    }

    fn refresh(&mut self, now: ClientTick, ttl_ticks: u64)
        ensures
            *final(self) == old(self).refreshed(now, ttl_ticks),
    {
        let expires_at = now.saturating_add(ttl_ticks);
        if self.expires_at.value < expires_at.value {
            self.expires_at = expires_at;
        }
    }

    fn fence(&mut self, reason: CleanupReason)
        ensures
            *final(self) == old(self).fenced(reason),
    {
        self.phase = ClientPhase::CleanupPending { reason, claim: CleanupClaimState::Ready };
    }

    /// Takes the cleanup for one worker, if it is in the expected state.
    fn claim_cleanup(&mut self, expected: CleanupClaimState) -> (claimed: Option<ClientCleanup>)
        ensures
            match old(self).claimable(expected) {
                Some(reason) => {
                    &&& claimed == Some(ClientCleanup { session: old(self).session, reason })
                    &&& *final(self) == old(self).with_claim(CleanupClaimState::Running)
                },
                None => claimed is None && *final(self) == *old(self),
            },
    {
        match self.phase {
            ClientPhase::Active => None,
            ClientPhase::CleanupPending { reason, claim } => {
                if claim != expected {
                    return None;
                }
                self.phase = ClientPhase::CleanupPending {
                    reason,
                    claim: CleanupClaimState::Running,
                };
                Some(ClientCleanup { session: self.session, reason })
            },
        }
    }
}

/// The contents of a [`ClientRegistry`].
pub struct RegistryView {
    pub config: ClientLifecycleConfig,
    /// The sessions by the number of the client's id.
    pub entries: Map<u128, ClientEntry>,
    pub deadlines: Seq<TimerRecord>,
    pub ready: Seq<ClientSession>,
    pub next_generation: u64,
}

/// The record under which a session's deadline is kept.
pub open spec fn deadline_record(session: ClientSession, at: u64) -> TimerRecord {
    TimerRecord {
        at,
        revision: 0,
        client: session.client_id,
        generation: session.generation,
        segment: SegmentId { high: 0, low: 0 },
    }
}

/// Whether a record of a session falls due no later than a moment.
pub open spec fn tracked_by(
    record: TimerRecord,
    session: ClientSession,
    no_later_than: ClientTick,
) -> bool {
    record.client == session.client_id && record.generation == session.generation && record.at
        <= no_later_than.value
}

impl RegistryView {
    /// A registry without sessions and with the usual lifecycle.
    pub open spec fn usual() -> RegistryView {
        RegistryView {
            config: ClientLifecycleConfig {
                ttl_ticks: 10_000,
                max_clients: 65_536,
                cleanup_scan_budget: 256,
            },
            entries: Map::empty(),
            deadlines: Seq::empty(),
            ready: Seq::empty(),
            next_generation: 1,
        }
    }

    pub open spec fn has(self, client_id: ClientId) -> bool {
        self.entries.contains_key(client_id.raw())
    }

    pub open spec fn entry(self, client_id: ClientId) -> ClientEntry {
        self.entries[client_id.raw()]
    }

    pub open spec fn with_entry(self, entry: ClientEntry) -> RegistryView {
        RegistryView {
            entries: self.entries.insert(entry.session.client_id.raw(), entry),
            ..self
        }
    }

    /// Whether a session is the client's current one and not fenced.
    pub open spec fn is_active(self, session: ClientSession) -> bool {
        &&& self.has(session.client_id)
        &&& self.entry(session.client_id).session == session
        &&& self.entry(session.client_id).phase == ClientPhase::Active
    }

    /// Whether the cleanup of a session is sure to be claimed some day: the
    /// session is not fenced or not claimed yet and has a deadline, or a worker
    /// gave its cleanup back and it is queued, or a worker has it.
    pub open spec fn is_tracked(self, entry: ClientEntry) -> bool {
        match entry.phase {
            ClientPhase::Active => self.has_deadline(entry),
            ClientPhase::CleanupPending { reason, claim } => match claim {
                CleanupClaimState::Ready => reason == CleanupReason::HeartbeatExpired
                    && self.has_deadline(entry),
                CleanupClaimState::Queued => self.ready.contains(entry.session),
                CleanupClaimState::Running => true,
            },
        }
    }

    pub open spec fn has_deadline(self, entry: ClientEntry) -> bool {
        exists|record: TimerRecord|
            #![trigger self.deadlines.contains(record)]
            self.deadlines.contains(record) && tracked_by(record, entry.session, entry.expires_at)
    }

    /// What holds of every reachable registry: each client has at most one
    /// session, of a generation that was given out; there are no more sessions
    /// than configured; and no session's cleanup is ever lost.
    pub open spec fn wf(self) -> bool {
        &&& self.config.fault() is None
        &&& self.entries.dom().finite()
        &&& self.entries.dom().len() <= self.config.max_clients
        &&& in_order(self.deadlines)
        &&& self.next_generation >= 1
        &&& forall|key: u128| #[trigger]
            self.entries.contains_key(key) ==> {
                &&& key != 0
                &&& self.entries[key].session.client_id.raw() == key
                &&& 1 <= self.entries[key].session.generation < self.next_generation
                &&& self.is_tracked(self.entries[key])
            }
    }

    /// What activating a client comes to.
    pub open spec fn activate_result(self, client_id: ClientId, now: ClientTick) -> Result<
        ActivateOutcome,
        ClientLifecycleError,
    > {
        if client_id.high == 0 && client_id.low == 0 {
            Err(ClientLifecycleError::NilClientId)
        } else if self.has(client_id) {
            let entry = self.entry(client_id);
            if entry.phase != ClientPhase::Active {
                Err(ClientLifecycleError::CleanupInProgress { state: entry.spec_state() })
            } else if now.value >= entry.expires_at.value {
                Err(ClientLifecycleError::CleanupInProgress { state: ClientState::Expired })
            } else {
                Ok(ActivateOutcome::AlreadyActive(entry.session))
            }
        } else if self.entries.dom().len() >= self.config.max_clients {
            Err(
                ClientLifecycleError::CapacityExceeded { max_clients: self.config.max_clients },
            )
        } else if self.next_generation == u64::MAX {
            Err(ClientLifecycleError::GenerationExhausted)
        } else {
            Ok(
                ActivateOutcome::Activated(
                    ClientSession { client_id, generation: self.next_generation },
                ),
            )
        }
    }

    /// The registry after a client was activated.
    pub open spec fn activated(self, client_id: ClientId, now: ClientTick) -> RegistryView {
        match self.activate_result(client_id, now) {
            Ok(ActivateOutcome::AlreadyActive(session)) => self.with_entry(
                self.entry(client_id).refreshed(now, self.config.ttl_ticks),
            ),
            Ok(ActivateOutcome::Activated(session)) => {
                let expires_at = now.later(self.config.ttl_ticks);
                RegistryView {
                    deadlines: with_record(
                        self.deadlines,
                        deadline_record(session, expires_at.value),
                    ),
                    next_generation: (self.next_generation + 1) as u64,
                    ..self.with_entry(
                        ClientEntry { session, phase: ClientPhase::Active, expires_at },
                    )
                }
            },
            Err(ClientLifecycleError::CleanupInProgress { state }) => self.expired_if_due(
                client_id,
                now,
            ),
            Err(_) => self,
        }
    }

    /// The registry in which the client's session is fenced, if it is active
    /// and its deadline has come.
    pub open spec fn expired_if_due(self, client_id: ClientId, now: ClientTick) -> RegistryView {
        let entry = self.entry(client_id);
        if self.has(client_id) && entry.phase == ClientPhase::Active && now.value
            >= entry.expires_at.value {
            self.with_entry(entry.fenced(CleanupReason::HeartbeatExpired))
        } else {
            self
        }
    }

    /// What a heartbeat comes to.
    pub open spec fn heartbeat_result(self, client_id: ClientId, now: ClientTick) -> HeartbeatOutcome {
        if self.has(client_id) && self.entry(client_id).phase == ClientPhase::Active && now.value
            < self.entry(client_id).expires_at.value {
            HeartbeatOutcome::Alive(self.entry(client_id).session)
        } else {
            HeartbeatOutcome::NeedRemount
        }
    }

    /// The registry after a heartbeat.
    pub open spec fn heartbeated(self, client_id: ClientId, now: ClientTick) -> RegistryView {
        match self.heartbeat_result(client_id, now) {
            HeartbeatOutcome::Alive(session) => self.with_entry(
                self.entry(client_id).refreshed(now, self.config.ttl_ticks),
            ),
            HeartbeatOutcome::NeedRemount => self.expired_if_due(client_id, now),
        }
    }

    /// The client's session, if it is active.
    pub open spec fn active_result(self, client_id: ClientId) -> Result<
        ClientSession,
        ClientLifecycleError,
    > {
        if client_id.high == 0 && client_id.low == 0 {
            Err(ClientLifecycleError::NilClientId)
        } else if self.has(client_id) && self.entry(client_id).phase == ClientPhase::Active {
            Ok(self.entry(client_id).session)
        } else {
            Err(ClientLifecycleError::ClientNotActive)
        }
    }

    /// Why a session that was just published cannot be taken back.
    pub open spec fn rollback_result(self, session: ClientSession) -> Result<
        (),
        ClientLifecycleError,
    > {
        if !self.has(session.client_id) {
            Err(ClientLifecycleError::ClientNotActive)
        } else if self.entry(session.client_id).session != session {
            Err(ClientLifecycleError::StaleSession)
        } else if self.entry(session.client_id).phase != ClientPhase::Active {
            Err(
                ClientLifecycleError::CleanupInProgress {
                    state: self.entry(session.client_id).spec_state(),
                },
            )
        } else {
            Ok(())
        }
    }

    /// The registry without the client's session.
    pub open spec fn without(self, client_id: ClientId) -> RegistryView {
        RegistryView { entries: self.entries.remove(client_id.raw()), ..self }
    }

    /// What draining a session comes to.
    pub open spec fn drain_result(self, session: ClientSession, reason: CleanupReason) -> Result<
        Option<ClientCleanup>,
        ClientLifecycleError,
    > {
        if !self.has(session.client_id) {
            Err(ClientLifecycleError::ClientNotActive)
        } else if self.entry(session.client_id).session != session {
            Err(ClientLifecycleError::StaleSession)
        } else {
            match self.entry(session.client_id).phase {
                ClientPhase::Active => Ok(Some(ClientCleanup { session, reason })),
                ClientPhase::CleanupPending { reason: known, claim } => if claim
                    == CleanupClaimState::Ready {
                    Ok(Some(ClientCleanup { session, reason: known }))
                } else {
                    Ok(None)
                },
            }
        }
    }

    /// The registry after a session was drained.
    pub open spec fn drained(self, session: ClientSession, reason: CleanupReason) -> RegistryView {
        match self.drain_result(session, reason) {
            Ok(Some(cleanup)) => self.with_entry(
                ClientEntry {
                    phase: ClientPhase::CleanupPending {
                        reason: cleanup.reason,
                        claim: CleanupClaimState::Running,
                    },
                    ..self.entry(session.client_id)
                },
            ),
            _ => self,
        }
    }

    /// What completing a cleanup comes to.
    pub open spec fn finish_result(self, session: ClientSession) -> Result<
        (),
        ClientLifecycleError,
    > {
        if !self.has(session.client_id) {
            Ok(())
        } else if self.entry(session.client_id).session != session {
            Err(ClientLifecycleError::StaleSession)
        } else if self.entry(session.client_id).claimable(CleanupClaimState::Running) is None {
            Err(ClientLifecycleError::CleanupNotStarted)
        } else {
            Ok(())
        }
    }

    /// The registry after a cleanup was completed.
    pub open spec fn finished(self, session: ClientSession) -> RegistryView {
        if self.finish_result(session) is Ok && self.has(session.client_id) {
            self.without(session.client_id)
        } else {
            self
        }
    }

    /// The registry after a worker gave a cleanup back.
    pub open spec fn cleanup_released(self, session: ClientSession) -> RegistryView {
        if self.has(session.client_id) && self.entry(session.client_id).session == session
            && self.entry(session.client_id).claimable(CleanupClaimState::Running) is Some {
            RegistryView {
                ready: self.ready.push(session),
                ..self.with_entry(
                    self.entry(session.client_id).with_claim(CleanupClaimState::Queued),
                )
            }
        } else {
            self
        }
    }
}

/// How far a maintenance round has come.
pub struct ClaimRound {
    pub registry: RegistryView,
    pub cleanups: Seq<ClientCleanup>,
    pub processed: nat,
}

impl ClaimRound {
    /// The round with the cleanup of a client claimed, if it is in the expected
    /// state.
    pub open spec fn claimed(self, client_id: ClientId, expected: CleanupClaimState) -> ClaimRound {
        let entry = self.registry.entry(client_id);
        match entry.claimable(expected) {
            Some(reason) => ClaimRound {
                registry: self.registry.with_entry(entry.with_claim(CleanupClaimState::Running)),
                cleanups: self.cleanups.push(ClientCleanup { session: entry.session, reason }),
                ..self
            },
            None => self,
        }
    }

    /// One cleanup that was given back is taken up again.
    pub open spec fn ready_step(self) -> ClaimRound {
        let session = self.registry.ready[0];
        let next = ClaimRound {
            registry: RegistryView { ready: self.registry.ready.drop_first(), ..self.registry },
            processed: self.processed + 1,
            ..self
        };
        if next.registry.has(session.client_id) && next.registry.entry(session.client_id).session
            == session {
            next.claimed(session.client_id, CleanupClaimState::Queued)
        } else {
            next
        }
    }

    /// Cleanups that were given back are taken up again, as far as the budget
    /// goes.
    pub open spec fn take_ready(self, budget: nat) -> ClaimRound
        decreases budget - self.processed,
    {
        if self.processed >= budget || self.registry.ready.len() == 0 {
            self
        } else {
            self.ready_step().take_ready(budget)
        }
    }

    /// One deadline that has come is worked off.
    pub open spec fn due_step(self, now: ClientTick) -> ClaimRound {
        let record = self.registry.deadlines[0];
        let next = ClaimRound {
            registry: RegistryView {
                deadlines: self.registry.deadlines.drop_first(),
                ..self.registry
            },
            processed: self.processed + 1,
            ..self
        };
        let entry = next.registry.entry(record.client);
        if !next.registry.has(record.client) || entry.session.generation != record.generation {
            next
        } else {
            match entry.phase {
                ClientPhase::Active => if now.value < entry.expires_at.value {
                    ClaimRound {
                        registry: RegistryView {
                            deadlines: with_record(
                                next.registry.deadlines,
                                deadline_record(entry.session, entry.expires_at.value),
                            ),
                            ..next.registry
                        },
                        ..next
                    }
                } else {
                    let reason = CleanupReason::HeartbeatExpired;
                    ClaimRound {
                        registry: next.registry.with_entry(
                            entry.fenced(reason).with_claim(CleanupClaimState::Running),
                        ),
                        cleanups: next.cleanups.push(
                            ClientCleanup { session: entry.session, reason },
                        ),
                        ..next
                    }
                },
                ClientPhase::CleanupPending { reason, claim } => if reason
                    == CleanupReason::HeartbeatExpired {
                    next.claimed(record.client, CleanupClaimState::Ready)
                } else {
                    next
                },
            }
        }
    }

    /// Deadlines that have come are worked off, as far as the budget goes.
    pub open spec fn take_due(self, now: ClientTick, budget: nat) -> ClaimRound
        decreases budget - self.processed,
    {
        if self.processed >= budget || self.registry.deadlines.len() == 0
            || self.registry.deadlines[0].at > now.value {
            self
        } else {
            self.due_step(now).take_due(now, budget)
        }
    }
}

impl RegistryView {
    /// A maintenance round.
    pub open spec fn claim_round(self, now: ClientTick, budget: usize) -> ClaimRound {
        let budget = if budget < self.config.cleanup_scan_budget {
            budget as nat
        } else {
            self.config.cleanup_scan_budget as nat
        };
        let start = ClaimRound { registry: self, cleanups: Seq::empty(), processed: 0 };
        start.take_ready(budget).take_due(now, budget)
    }
}

/// Fencing token for operations owned by one client incarnation. It is valid as
/// long as the registry holds the session unfenced.
#[derive(Clone, Copy, Debug, Eq, PartialEq, Structural)]
pub struct ClientSessionGuard {
    pub session: ClientSession,
}

impl ClientSessionGuard {
    pub fn session(&self) -> (session: ClientSession)
        ensures
            session == self.session,
    {
        self.session
    }

    pub fn is_active(&self, registry: &ClientRegistry) -> (active: bool)
        ensures
            active == registry@.is_active(self.session),
    {
        registry.is_active(self.session)
    }
}

/// Synchronous client session registry.
///
/// This component performs no external cleanup itself; callers execute returned
/// [`ClientCleanup`] values after the method returns.
pub struct ClientRegistry {
    config: ClientLifecycleConfig,
    entries: HashMap<u128, ClientEntry>,
    deadlines: TimerQueue,
    cleanup_ready: VecDeque<ClientSession>,
    next_generation: u64,
}

impl View for ClientRegistry {
    type V = RegistryView;

    closed spec fn view(&self) -> RegistryView {
        RegistryView {
            config: self.config,
            entries: self.entries@,
            deadlines: self.deadlines@,
            ready: self.cleanup_ready@,
            next_generation: self.next_generation,
        }
    }
}

/// Where the deadlines and the queue of a registry only grow, and no client
/// loses its session, every session stays tracked.
proof fn lemma_still_tracked(before: RegistryView, after: RegistryView, entry: ClientEntry)
    requires
        before.is_tracked(entry),
        forall|record: TimerRecord|
            #![trigger after.deadlines.contains(record)]
            before.deadlines.contains(record) ==> after.deadlines.contains(record),
        forall|session: ClientSession|
            #![trigger after.ready.contains(session)]
            before.ready.contains(session) ==> after.ready.contains(session),
    ensures
        after.is_tracked(entry),
{
    if before.has_deadline(entry) {
        let record = choose|record: TimerRecord|
            #![trigger before.deadlines.contains(record)]
            before.deadlines.contains(record) && tracked_by(
                record,
                entry.session,
                entry.expires_at,
            );
        assert(after.deadlines.contains(record));
    }
}

/// Replacing or adding one session keeps a registry in order, if that session is
/// tracked.
proof fn lemma_with_entry_wf(before: RegistryView, after: RegistryView, entry: ClientEntry)
    requires
        before.wf(),
        after == (RegistryView {
            deadlines: after.deadlines,
            ready: after.ready,
            next_generation: after.next_generation,
            ..before.with_entry(entry)
        }),
        in_order(after.deadlines),
        after.next_generation >= before.next_generation,
        1 <= entry.session.generation < after.next_generation,
        after.is_tracked(entry),
        before.has(entry.session.client_id) || (before.entries.dom().len()
            < before.config.max_clients && entry.session.client_id.raw() != 0),
        forall|record: TimerRecord|
            #![trigger after.deadlines.contains(record)]
            before.deadlines.contains(record) ==> after.deadlines.contains(record),
        forall|session: ClientSession|
            #![trigger after.ready.contains(session)]
            before.ready.contains(session) ==> after.ready.contains(session),
    ensures
        after.wf(),
{
    let changed = entry.session.client_id.raw();
    assert forall|key: u128| #[trigger] after.entries.contains_key(key) implies {
        &&& key != 0
        &&& after.entries[key].session.client_id.raw() == key
        &&& 1 <= after.entries[key].session.generation < after.next_generation
        &&& after.is_tracked(after.entries[key])
    } by {
        if key != changed {
            assert(before.entries.contains_key(key));
            lemma_still_tracked(before, after, before.entries[key]);
        } else if before.has(entry.session.client_id) {
            assert(before.entries.contains_key(key));
        }
    }
    if before.has(entry.session.client_id) {
        assert(after.entries.dom() =~= before.entries.dom());
    } else {
        assert(after.entries.dom() =~= before.entries.dom().insert(changed));
    }
}

/// Taking one session out keeps a registry in order.
proof fn lemma_without_wf(before: RegistryView, client_id: ClientId)
    requires
        before.wf(),
    ensures
        before.without(client_id).wf(),
{
    let after = before.without(client_id);
    assert forall|key: u128| #[trigger] after.entries.contains_key(key) implies {
        &&& key != 0
        &&& after.entries[key].session.client_id.raw() == key
        &&& 1 <= after.entries[key].session.generation < after.next_generation
        &&& after.is_tracked(after.entries[key])
    } by {
        assert(before.entries.contains_key(key));
        lemma_still_tracked(before, after, before.entries[key]);
    }
    assert(after.entries.dom() =~= before.entries.dom().remove(client_id.raw()));
}

impl ClientRegistry {
    /// What ties the fields together.
    pub closed spec fn wf(&self) -> bool {
        self@.wf()
    }

    /// A registry's own invariant, for callers that hold the registry.
    pub proof fn lemma_wf(&self)
        requires
            self.wf(),
        ensures
            self@.wf(),
    {
    }

    /// An empty registry with the default configuration.
    pub fn new() -> (registry: Self)
        ensures
            registry.wf(),
            registry@ == RegistryView::usual(),
    {
        let registry = Self {
            config: ClientLifecycleConfig::default(),
            entries: HashMap::new(),
            deadlines: TimerQueue::new(),
            cleanup_ready: VecDeque::new(),
            next_generation: 1,
        };
        assert(registry@.ready =~= Seq::empty());
        registry
    }

    /// An empty registry.
    pub fn with_config(config: ClientLifecycleConfig) -> (made: Result<
        Self,
        ClientLifecycleConfigError,
    >)
        ensures
            match config.fault() {
                Some(fault) => made == Err::<Self, ClientLifecycleConfigError>(fault),
                None => made matches Ok(registry) && registry.wf() && registry@ == (RegistryView {
                    config,
                    entries: Map::empty(),
                    deadlines: Seq::empty(),
                    ready: Seq::empty(),
                    next_generation: 1,
                }),
            },
    {
        if let Err(error) = config.validate() {
            return Err(error);
        }
        let registry = Self {
            config,
            entries: HashMap::new(),
            deadlines: TimerQueue::new(),
            cleanup_ready: VecDeque::new(),
            next_generation: 1,
        };
        assert(registry@.ready =~= Seq::empty());
        Ok(registry)
    }

    pub fn config(&self) -> (config: ClientLifecycleConfig)
        ensures
            config == self@.config,
    {
        self.config
    }

    pub fn len(&self) -> (length: usize)
        ensures
            length == self@.entries.dom().len(),
    {
        broadcast use vstd::std_specs::hash::group_hash_axioms;

        self.entries.len()
    }

    pub fn is_empty(&self) -> (empty: bool)
        ensures
            empty == (self@.entries.dom().len() == 0),
    {
        self.len() == 0
    }

    /// The client's session.
    fn lookup(&self, client_id: ClientId) -> (entry: Option<ClientEntry>)
        ensures
            entry == if self@.has(client_id) {
                Some(self@.entry(client_id))
            } else {
                None
            },
    {
        broadcast use vstd::std_specs::hash::group_hash_axioms;

        match self.entries.get(&client_id.to_raw()) {
            Some(entry) => Some(*entry),
            None => None,
        }
    }

    /// Writes a session back.
    fn store(&mut self, entry: ClientEntry)
        ensures
            final(self)@ == old(self)@.with_entry(entry),
    {
        broadcast use vstd::std_specs::hash::group_hash_axioms;

        self.entries.insert(entry.session.client_id.to_raw(), entry);
    }

    /// Takes a session out.
    fn discard(&mut self, client_id: ClientId)
        ensures
            final(self)@ == old(self)@.without(client_id),
    {
        broadcast use vstd::std_specs::hash::group_hash_axioms;

        self.entries.remove(&client_id.to_raw());
    }

    pub fn state(&self, client_id: ClientId) -> (state: Option<ClientState>)
        ensures
            state == if self@.has(client_id) {
                Some(self@.entry(client_id).spec_state())
            } else {
                None
            },
    {
        match self.lookup(client_id) {
            Some(entry) => Some(entry.state()),
            None => None,
        }
    }

    /// Whether a session is the client's current one and not fenced.
    pub fn is_active(&self, session: ClientSession) -> (active: bool)
        ensures
            active == self@.is_active(session),
    {
        match self.lookup(session.client_id) {
            Some(entry) => entry.session == session && entry.phase == ClientPhase::Active,
            None => false,
        }
    }

    /// Establishes a session after the caller has completed register/remount.
    ///
    /// Repeating activation for a still-live client is idempotent and also
    /// refreshes its deadline. A session that has reached its deadline is
    /// fenced before this method reports cleanup in progress.
    pub fn activate(&mut self, client_id: ClientId, now: ClientTick) -> (activated: Result<
        ActivateOutcome,
        ClientLifecycleError,
    >)
        requires
            old(self).wf(),
        ensures
            final(self).wf(),
            activated == old(self)@.activate_result(client_id, now),
            final(self)@ == old(self)@.activated(client_id, now),
    {
        let ghost before = self@;
        if client_id.is_nil() {
            return Err(ClientLifecycleError::NilClientId);
        }
        if let Some(found) = self.lookup(client_id) {
            let mut entry = found;
            proof {
                law_client_id_round_trip(found.session.client_id, client_id, 0);
                assert(before.entries.contains_key(client_id.raw()));
            }
            if entry.phase != ClientPhase::Active {
                return Err(ClientLifecycleError::CleanupInProgress { state: entry.state() });
            }
            if now.value >= entry.expires_at.value {
                entry.fence(CleanupReason::HeartbeatExpired);
                self.store(entry);
                proof {
                    assert(before.has_deadline(entry));
                    lemma_with_entry_wf(before, self@, entry);
                }
                return Err(
                    ClientLifecycleError::CleanupInProgress { state: ClientState::Expired },
                );
            }
            entry.refresh(now, self.config.ttl_ticks);
            self.store(entry);
            proof {
                lemma_later_deadline(before, found, entry);
                lemma_with_entry_wf(before, self@, entry);
            }
            return Ok(ActivateOutcome::AlreadyActive(entry.session));
        }
        if self.len() >= self.config.max_clients {
            return Err(
                ClientLifecycleError::CapacityExceeded { max_clients: self.config.max_clients },
            );
        }
        if self.next_generation == u64::MAX {
            return Err(ClientLifecycleError::GenerationExhausted);
        }
        let generation: u64 = self.next_generation;
        self.next_generation = generation + 1;
        let session = ClientSession { client_id, generation };
        let expires_at = now.saturating_add(self.config.ttl_ticks);
        let entry = ClientEntry { session, phase: ClientPhase::Active, expires_at };
        self.store(entry);
        let record = TimerRecord {
            at: expires_at.value,
            revision: 0,
            client: client_id,
            generation,
            segment: SegmentId::nil(),
        };
        self.deadlines.put(record);
        proof {
            lemma_slot_range(before.deadlines, record);
            assert(self@.deadlines.contains(record)) by {
                assert(self@.deadlines[slot_for(before.deadlines, record)] == record);
            }
            assert(tracked_by(record, session, expires_at));
            lemma_joined(client_id.high, client_id.low);
            lemma_with_entry_wf(before, self@, entry);
        }
        Ok(ActivateOutcome::Activated(session))
    }

    /// Refreshes the current active session, or requests remount without
    /// allocating state for unknown IDs.
    pub fn heartbeat(&mut self, client_id: ClientId, now: ClientTick) -> (outcome: HeartbeatOutcome)
        requires
            old(self).wf(),
        ensures
            final(self).wf(),
            outcome == old(self)@.heartbeat_result(client_id, now),
            final(self)@ == old(self)@.heartbeated(client_id, now),
    {
        let ghost before = self@;
        let found = match self.lookup(client_id) {
            Some(entry) => entry,
            None => return HeartbeatOutcome::NeedRemount,
        };
        let mut entry = found;
        proof {
            law_client_id_round_trip(found.session.client_id, client_id, 0);
            assert(before.entries.contains_key(client_id.raw()));
        }
        if entry.phase != ClientPhase::Active {
            return HeartbeatOutcome::NeedRemount;
        }
        if now.value >= entry.expires_at.value {
            entry.fence(CleanupReason::HeartbeatExpired);
            self.store(entry);
            proof {
                assert(before.has_deadline(entry));
                lemma_with_entry_wf(before, self@, entry);
            }
            return HeartbeatOutcome::NeedRemount;
        }
        entry.refresh(now, self.config.ttl_ticks);
        self.store(entry);
        proof {
            lemma_later_deadline(before, found, entry);
            lemma_with_entry_wf(before, self@, entry);
        }
        HeartbeatOutcome::Alive(entry.session)
    }

    pub fn active_session(&self, client_id: ClientId) -> (session: Result<
        ClientSession,
        ClientLifecycleError,
    >)
        ensures
            session == self@.active_result(client_id),
    {
        if client_id.is_nil() {
            return Err(ClientLifecycleError::NilClientId);
        }
        match self.lookup(client_id) {
            Some(entry) => if entry.phase == ClientPhase::Active {
                Ok(entry.session)
            } else {
                Err(ClientLifecycleError::ClientNotActive)
            },
            None => Err(ClientLifecycleError::ClientNotActive),
        }
    }

    /// Returns the generation-bound fencing token used by a new operation.
    pub fn active_session_guard(&self, client_id: ClientId) -> (guard: Result<
        ClientSessionGuard,
        ClientLifecycleError,
    >)
        ensures
            guard == match self@.active_result(client_id) {
                Ok(session) => Ok::<ClientSessionGuard, ClientLifecycleError>(
                    ClientSessionGuard { session },
                ),
                Err(error) => Err(error),
            },
            self.wf() ==> (guard matches Ok(token) ==> self@.is_active(token.session)),
    {
        match self.active_session(client_id) {
            Ok(session) => {
                proof {
                    if self.wf() {
                        assert(self@.entries.contains_key(client_id.raw()));
                        law_client_id_round_trip(session.client_id, client_id, 0);
                    }
                }
                Ok(ClientSessionGuard { session })
            },
            Err(error) => Err(error),
        }
    }

    /// Removes an exact session that was published by a resource transaction
    /// which could not complete. Stale deadline records are discarded by the
    /// normal generation check when they become due.
    pub fn rollback_activation(&mut self, session: ClientSession) -> (done: Result<
        (),
        ClientLifecycleError,
    >)
        requires
            old(self).wf(),
        ensures
            final(self).wf(),
            done == old(self)@.rollback_result(session),
            final(self)@ == if done is Ok {
                old(self)@.without(session.client_id)
            } else {
                old(self)@
            },
    {
        let entry = match self.lookup(session.client_id) {
            Some(entry) => entry,
            None => return Err(ClientLifecycleError::ClientNotActive),
        };
        if entry.session != session {
            return Err(ClientLifecycleError::StaleSession);
        }
        if entry.phase != ClientPhase::Active {
            return Err(ClientLifecycleError::CleanupInProgress { state: entry.state() });
        }
        proof {
            lemma_without_wf(self@, session.client_id);
        }
        self.discard(session.client_id);
        Ok(())
    }

    /// Fences a session and claims its cleanup when no worker owns it.
    pub fn begin_drain(&mut self, session: ClientSession, reason: CleanupReason) -> (drained: Result<
        Option<ClientCleanup>,
        ClientLifecycleError,
    >)
        requires
            old(self).wf(),
        ensures
            final(self).wf(),
            drained == old(self)@.drain_result(session, reason),
            final(self)@ == old(self)@.drained(session, reason),
    {
        let ghost before = self@;
        let mut entry = match self.lookup(session.client_id) {
            Some(entry) => entry,
            None => return Err(ClientLifecycleError::ClientNotActive),
        };
        assert(before.entries.contains_key(session.client_id.raw()));
        if entry.session != session {
            return Err(ClientLifecycleError::StaleSession);
        }
        if entry.phase == ClientPhase::Active {
            entry.fence(reason);
        }
        let cleanup = entry.claim_cleanup(CleanupClaimState::Ready);
        self.store(entry);
        proof {
            lemma_with_entry_wf(before, self@, entry);
            if cleanup is None {
                assert(self@.entries =~= before.entries);
            }
        }
        Ok(cleanup)
    }

    /// Completes a cleanup and removes the fenced session.
    pub fn finish_cleanup(&mut self, session: ClientSession) -> (done: Result<
        (),
        ClientLifecycleError,
    >)
        requires
            old(self).wf(),
        ensures
            final(self).wf(),
            done == old(self)@.finish_result(session),
            final(self)@ == old(self)@.finished(session),
    {
        let entry = match self.lookup(session.client_id) {
            Some(entry) => entry,
            None => return Ok(()),
        };
        if entry.session != session {
            return Err(ClientLifecycleError::StaleSession);
        }
        let running = match entry.phase {
            ClientPhase::Active => false,
            ClientPhase::CleanupPending { reason: _, claim } => claim == CleanupClaimState::Running,
        };
        if !running {
            return Err(ClientLifecycleError::CleanupNotStarted);
        }
        proof {
            lemma_without_wf(self@, session.client_id);
        }
        self.discard(session.client_id);
        Ok(())
    }

    /// Gives an unfinished cleanup back, so that another round takes it up.
    pub fn release_cleanup(&mut self, session: ClientSession)
        requires
            old(self).wf(),
        ensures
            final(self).wf(),
            final(self)@ == old(self)@.cleanup_released(session),
    {
        let ghost before = self@;
        let mut entry = match self.lookup(session.client_id) {
            Some(entry) => entry,
            None => return ,
        };
        if entry.session != session {
            return ;
        }
        assert(before.entries.contains_key(session.client_id.raw()));
        match entry.phase {
            ClientPhase::Active => {},
            ClientPhase::CleanupPending { reason, claim } => {
                if claim == CleanupClaimState::Running {
                    entry.phase = ClientPhase::CleanupPending {
                        reason,
                        claim: CleanupClaimState::Queued,
                    };
                    self.store(entry);
                    self.cleanup_ready.push_back(session);
                    proof {
                        assert(self@.ready =~= before.ready.push(session));
                        assert(self@.ready[before.ready.len() as int] == session);
                        assert forall|other: ClientSession|
                            before.ready.contains(other) implies #[trigger] self@.ready.contains(
                            other,
                        ) by {
                            let i = choose|i: int|
                                0 <= i < before.ready.len() && before.ready[i] == other;
                            assert(self@.ready[i] == other);
                        }
                        lemma_with_entry_wf(before, self@, entry);
                    }
                }
            },
        }
    }

    /// Processes at most `budget` due or stale deadline records.
    ///
    /// Heartbeats update only the entry. When its original record becomes due,
    /// this scan either requeues the single latest deadline or fences and
    /// returns the session for cleanup. The configured per-round budget is a
    /// hard per-call cap; callers may pass a smaller budget for this round.
    pub fn claim_due_cleanups(&mut self, now: ClientTick, budget: usize) -> (cleanups: Vec<
        ClientCleanup,
    >)
        requires
            old(self).wf(),
        ensures
            final(self).wf(),
            cleanups@ == old(self)@.claim_round(now, budget).cleanups,
            final(self)@ == old(self)@.claim_round(now, budget).registry,
            cleanups@.len() <= budget,
    {
        let mut cleanups: Vec<ClientCleanup> = Vec::new();
        let budget: usize = if budget < self.config.cleanup_scan_budget {
            budget
        } else {
            self.config.cleanup_scan_budget
        };
        let mut processed: usize = 0;
        let ghost goal = self@.claim_round(now, budget);
        let ghost middle = ClaimRound {
            registry: self@,
            cleanups: Seq::empty(),
            processed: 0,
        }.take_ready(budget as nat);
        while processed < budget && self.cleanup_ready.len() > 0
            invariant
                self.wf(),
                processed <= budget,
                cleanups@.len() <= processed,
                middle == (ClaimRound {
                    registry: self@,
                    cleanups: cleanups@,
                    processed: processed as nat,
                }).take_ready(budget as nat),
            decreases budget - processed,
        {
            self.take_ready_cleanup(&mut cleanups, Ghost(processed as nat));
            processed = processed + 1;
        }
        loop
            invariant
                self.wf(),
                processed <= budget,
                cleanups@.len() <= processed,
                goal == (ClaimRound {
                    registry: self@,
                    cleanups: cleanups@,
                    processed: processed as nat,
                }).take_due(now, budget as nat),
            ensures
                goal.registry == self@,
                goal.cleanups == cleanups@,
                cleanups@.len() <= processed,
                processed <= budget,
                self.wf(),
            decreases budget - processed,
        {
            if processed >= budget {
                break ;
            }
            let record = match self.deadlines.first() {
                Some(record) => record,
                None => break ,
            };
            if record.at > now.value {
                break ;
            }
            self.take_due_deadline(now, &mut cleanups, Ghost(processed as nat));
            processed = processed + 1;
        }
        cleanups
    }

    /// Takes up one cleanup that was given back.
    fn take_ready_cleanup(&mut self, cleanups: &mut Vec<ClientCleanup>, processed: Ghost<nat>)
        requires
            old(self).wf(),
            old(self)@.ready.len() > 0,
        ensures
            final(self).wf(),
            (ClaimRound { registry: final(self)@, cleanups: final(cleanups)@, processed: (processed@ + 1) as nat })
                == (ClaimRound {
                registry: old(self)@,
                cleanups: old(cleanups)@,
                processed: processed@,
            }).ready_step(),
            final(cleanups)@.len() <= old(cleanups)@.len() + 1,
    {
        let ghost before = self@;
        if let Some(session) = self.cleanup_ready.pop_front() {
            let ghost shorter = self@;
            assert(shorter.ready =~= before.ready.drop_first());
            let mut claimed = false;
            if let Some(found) = self.lookup(session.client_id) {
                let mut entry = found;
                if entry.session == session {
                    assert(before.entries.contains_key(session.client_id.raw()));
                    if let Some(cleanup) = entry.claim_cleanup(CleanupClaimState::Queued) {
                        self.store(entry);
                        cleanups.push(cleanup);
                        claimed = true;
                    }
                }
            }
            proof {
                lemma_ready_taken_wf(before, self@, session, claimed);
            }
        }
    }

    /// Works off one deadline that has come.
    fn take_due_deadline(
        &mut self,
        now: ClientTick,
        cleanups: &mut Vec<ClientCleanup>,
        processed: Ghost<nat>,
    )
        requires
            old(self).wf(),
            old(self)@.deadlines.len() > 0,
        ensures
            final(self).wf(),
            (ClaimRound { registry: final(self)@, cleanups: final(cleanups)@, processed: (processed@ + 1) as nat })
                == (ClaimRound {
                registry: old(self)@,
                cleanups: old(cleanups)@,
                processed: processed@,
            }).due_step(now),
            final(cleanups)@.len() <= old(cleanups)@.len() + 1,
    {
        let ghost before = self@;
        if let Some(record) = self.deadlines.take_first() {
            let ghost shorter = self@;
            proof {
                assert forall|i: int, j: int|
                    0 <= i < j < shorter.deadlines.len() implies !super::timer::record_before(
                    #[trigger] shorter.deadlines[j],
                    #[trigger] shorter.deadlines[i],
                ) by {
                    assert(shorter.deadlines[i] == before.deadlines[i + 1]);
                    assert(shorter.deadlines[j] == before.deadlines[j + 1]);
                }
            }
            if let Some(found) = self.lookup(record.client) {
                let mut entry = found;
                assert(before.entries.contains_key(record.client.raw()));
                proof {
                    law_client_id_round_trip(found.session.client_id, record.client, 0);
                }
                if entry.session.generation == record.generation {
                    match entry.phase {
                        ClientPhase::Active => {
                            if now.value < entry.expires_at.value {
                                let replacement = TimerRecord {
                                    at: entry.expires_at.value,
                                    revision: 0,
                                    client: record.client,
                                    generation: record.generation,
                                    segment: SegmentId::nil(),
                                };
                                self.deadlines.put(replacement);
                                proof {
                                    lemma_requeued_wf(before, self@, replacement);
                                }
                                return ;
                            }
                            entry.fence(CleanupReason::HeartbeatExpired);
                            if let Some(cleanup) = entry.claim_cleanup(CleanupClaimState::Ready) {
                                cleanups.push(cleanup);
                            }
                            self.store(entry);
                        },
                        ClientPhase::CleanupPending { reason, claim: _ } => {
                            if reason == CleanupReason::HeartbeatExpired {
                                if let Some(cleanup) = entry.claim_cleanup(
                                    CleanupClaimState::Ready,
                                ) {
                                    cleanups.push(cleanup);
                                    self.store(entry);
                                }
                            }
                        },
                    }
                }
            }
            proof {
                lemma_deadline_taken_wf(before, self@, record);
            }
        }
    }
}

/// A later deadline is covered by the records that covered the earlier one.
proof fn lemma_later_deadline(registry: RegistryView, before: ClientEntry, after: ClientEntry)
    requires
        registry.has_deadline(before),
        after.session == before.session,
        after.expires_at.value >= before.expires_at.value,
    ensures
        registry.has_deadline(after),
{
    let record = choose|record: TimerRecord|
        #![trigger registry.deadlines.contains(record)]
        registry.deadlines.contains(record) && tracked_by(
            record,
            before.session,
            before.expires_at,
        );
    assert(registry.deadlines.contains(record));
    assert(tracked_by(record, after.session, after.expires_at));
}

/// The same records cover the same sessions.
proof fn lemma_same_deadlines(before: RegistryView, after: RegistryView, entry: ClientEntry)
    requires
        before.has_deadline(entry),
        after.deadlines == before.deadlines,
    ensures
        after.has_deadline(entry),
{
    let record = choose|record: TimerRecord|
        #![trigger before.deadlines.contains(record)]
        before.deadlines.contains(record) && tracked_by(record, entry.session, entry.expires_at);
    assert(after.deadlines.contains(record));
}

/// Taking up a cleanup that was given back keeps the registry in order.
proof fn lemma_ready_taken_wf(
    before: RegistryView,
    after: RegistryView,
    session: ClientSession,
    claimed: bool,
)
    requires
        before.wf(),
        before.ready.len() > 0,
        session == before.ready[0],
        ({
            let shorter = RegistryView { ready: before.ready.drop_first(), ..before };
            let entry = before.entry(session.client_id);
            if claimed {
                &&& before.has(session.client_id)
                &&& entry.session == session
                &&& after == shorter.with_entry(entry.with_claim(CleanupClaimState::Running))
                &&& entry.phase != ClientPhase::Active
            } else {
                &&& after == shorter
                &&& before.has(session.client_id) && entry.session == session ==> entry.claimable(
                    CleanupClaimState::Queued,
                ) is None
            }
        }),
    ensures
        after.wf(),
{
    assert forall|key: u128| #[trigger] after.entries.contains_key(key) implies {
        &&& key != 0
        &&& after.entries[key].session.client_id.raw() == key
        &&& 1 <= after.entries[key].session.generation < after.next_generation
        &&& after.is_tracked(after.entries[key])
    } by {
        assert(before.entries.contains_key(key));
        let entry = before.entries[key];
        assert(before.is_tracked(entry));
        if after.entries[key] == entry {
            if before.has_deadline(entry) {
                lemma_same_deadlines(before, after, entry);
            }
            if entry.claimable(CleanupClaimState::Queued) is Some {
                let i = choose|i: int| 0 <= i < before.ready.len() && before.ready[i]
                    == entry.session;
                if i == 0 {
                    assert(entry.session == session);
                    assert(session.client_id.raw() == key);
                } else {
                    assert(after.ready[i - 1] == entry.session);
                }
            }
        }
    }
    if claimed {
        assert(after.entries.dom() =~= before.entries.dom());
    }
}

/// Putting a session's latest deadline in place of its earlier record keeps the
/// registry in order.
proof fn lemma_requeued_wf(before: RegistryView, after: RegistryView, record: TimerRecord)
    requires
        before.wf(),
        before.deadlines.len() > 0,
        before.has(record.client),
        before.entry(record.client).session == (ClientSession {
            client_id: record.client,
            generation: record.generation,
        }),
        record.at == before.entry(record.client).expires_at.value,
        before.deadlines[0].client == record.client,
        before.deadlines[0].generation == record.generation,
        after == (RegistryView {
            deadlines: with_record(before.deadlines.drop_first(), record),
            ..before
        }),
        in_order(after.deadlines),
    ensures
        after.wf(),
{
    let shorter = before.deadlines.drop_first();
    lemma_slot_range(shorter, record);
    assert forall|key: u128| #[trigger] after.entries.contains_key(key) implies {
        &&& key != 0
        &&& after.entries[key].session.client_id.raw() == key
        &&& 1 <= after.entries[key].session.generation < after.next_generation
        &&& after.is_tracked(after.entries[key])
    } by {
        let entry = before.entries[key];
        assert(before.entries.contains_key(key));
        if before.has_deadline(entry) {
            if entry.session.client_id == record.client {
                assert(after.deadlines.contains(record)) by {
                    assert(after.deadlines[slot_for(shorter, record)] == record);
                }
                assert(tracked_by(record, entry.session, entry.expires_at));
                assert(after.has_deadline(entry));
            } else {
                let kept = choose|kept: TimerRecord|
                    #![trigger before.deadlines.contains(kept)]
                    before.deadlines.contains(kept) && tracked_by(
                        kept,
                        entry.session,
                        entry.expires_at,
                    );
                let i = choose|i: int| 0 <= i < before.deadlines.len() && before.deadlines[i]
                    == kept;
                assert(i > 0);
                assert(shorter[i - 1] == kept);
                assert(shorter.contains(kept));
                assert(after.deadlines.contains(kept));
            }
        }
    }
}

/// Working off a deadline keeps the registry in order.
proof fn lemma_deadline_taken_wf(before: RegistryView, after: RegistryView, record: TimerRecord)
    requires
        before.wf(),
        before.deadlines.len() > 0,
        record == before.deadlines[0],
        in_order(before.deadlines.drop_first()),
        ({
            let shorter = RegistryView { deadlines: before.deadlines.drop_first(), ..before };
            let entry = before.entry(record.client);
            let current = before.has(record.client) && entry.session.generation
                == record.generation;
            ||| (after == shorter && (!current || (entry.phase != ClientPhase::Active
                && entry.claimable(CleanupClaimState::Ready) is None) || !(
            before.has(record.client) && entry.session.client_id == record.client)))
            ||| (after == shorter && current && entry.phase != ClientPhase::Active
                && entry.spec_state() != ClientState::Expired)
            ||| (current && after == shorter.with_entry(
                (ClientEntry {
                    phase: after.entry(record.client).phase,
                    ..entry
                }),
            ) && after.entry(record.client).claimable(CleanupClaimState::Running) is Some)
        }),
    ensures
        after.wf(),
{
    let shorter = before.deadlines.drop_first();
    assert forall|key: u128| #[trigger] after.entries.contains_key(key) implies {
        &&& key != 0
        &&& after.entries[key].session.client_id.raw() == key
        &&& 1 <= after.entries[key].session.generation < after.next_generation
        &&& after.is_tracked(after.entries[key])
    } by {
        if before.has(record.client) {
            assert(before.entries.contains_key(record.client.raw()));
            law_client_id_round_trip(
                before.entry(record.client).session.client_id,
                record.client,
                0,
            );
        }
        assert(before.entries.contains_key(key));
        let entry = before.entries[key];
        assert(before.is_tracked(entry));
        law_client_id_round_trip(entry.session.client_id, record.client, 0);
        if after.entries[key] == entry && before.has_deadline(entry) {
            let kept = choose|kept: TimerRecord|
                #![trigger before.deadlines.contains(kept)]
                before.deadlines.contains(kept) && tracked_by(
                    kept,
                    entry.session,
                    entry.expires_at,
                );
            let i = choose|i: int| 0 <= i < before.deadlines.len() && before.deadlines[i] == kept;
            if i > 0 {
                assert(shorter[i - 1] == kept);
                assert(after.deadlines.contains(kept));
                assert(after.has_deadline(entry));
            }
        }
    }
    assert(after.entries.dom() =~= before.entries.dom());
}

impl Default for ClientRegistry {
    fn default() -> (registry: Self)
        ensures
            registry.wf(),
            registry@ == RegistryView::usual(),
    {
        Self::new()
    }
}

} // verus!
