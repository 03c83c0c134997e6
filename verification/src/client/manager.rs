//! Cross-domain coordination for client remount and resource cleanup.

use super::config::ClientLifecycleConfig;
use super::error::{ClientLifecycleConfigError, ClientLifecycleError};
use super::graceful::{
    ClaimWalk, GracefulUnmountJob, GracefulUnmountKey, GracefulUnmountQueue, GracefulView,
};
use super::lifecycle::{
    ActivateOutcome, ClaimRound, CleanupReason, ClientCleanup, ClientEntry, ClientPhase, ClientRegistry,
    ClientSession, ClientState, ClientTick, CleanupClaimState, HeartbeatOutcome, RegistryView,
};
use super::mounts::{ClientMountState, MountView, SegmentSet};
use crate::object::catalog::sweep::bumped;
use crate::object::manager::{
    owners_of, ManagerView, ObjectManager, PendingWriteRevoker,
};
use crate::object::reclamation::CatalogTick;
use crate::object::write::{WriteAdmission, WriteOwner};
use crate::segment::error::{AttachError, SegmentStateError};
use crate::segment::identity::{law_client_id_round_trip, ClientId, SegmentId};
use crate::segment::pool::{
    AttachOutcome, PoolView, SegmentHandle, SegmentIncarnation, SegmentPool,
};
use crate::segment::spec::SegmentSpec;
use crate::segment::stats::SegmentState;
use std::collections::HashMap;
use super::undo::{
    all_found, can_undo, found_hidden, found_undone, has_grown, lemma_contains_more, lemma_found_after_quiesce,
    lemma_found_after_remove, lemma_found_reactivated, lemma_grows, lemma_hidden_more,
    lemma_batch_owned, lemma_published, lemma_undone,
};
use vstd::prelude::*;

verus! {

/// After how many ticks a removal that failed is tried again.
pub const GRACEFUL_UNMOUNT_RETRY_TICKS: u64 = 100;

/// What a cleanup of sessions did.
#[derive(Clone, Copy, Debug, Eq, PartialEq, Structural)]
pub struct ClientCleanupReport {
    pub completed_sessions: usize,
    pub revoked_pending_writes: usize,
    pub invalidated_segments: usize,
}

impl Default for ClientCleanupReport {
    fn default() -> (report: Self)
        ensures
            report == (ClientCleanupReport {
                completed_sessions: 0,
                revoked_pending_writes: 0,
                invalidated_segments: 0,
            }),
    {
        Self { completed_sessions: 0, revoked_pending_writes: 0, invalidated_segments: 0 }
    }
}

/// What a round of graceful removals did.
#[derive(Clone, Copy, Debug, Eq, PartialEq, Structural)]
pub struct GracefulUnmountReport {
    pub completed: usize,
    pub stale_or_cancelled: usize,
    pub retried: usize,
}

impl Default for GracefulUnmountReport {
    fn default() -> (report: Self)
        ensures
            report == (GracefulUnmountReport { completed: 0, stale_or_cancelled: 0, retried: 0 }),
    {
        Self { completed: 0, stale_or_cancelled: 0, retried: 0 }
    }
}

/// What unmounting a segment came to.
#[derive(Clone, Copy, Debug, Eq, PartialEq, Structural)]
pub enum SegmentUnmountOutcome {
    Unmounted,
    AlreadyAbsent,
}

/// Why a client operation failed.
#[derive(Debug)]
pub enum ClientManagerError {
    Lifecycle(ClientLifecycleError),
    Attach(AttachError),
    SegmentState(SegmentStateError),
    /// The active client's remount does not match its mounted segment set.
    ActiveRemountConflict,
    /// What the client has mounted is at odds with the pool.
    InconsistentSlot,
    /// The segment is unavailable in its current lifecycle state.
    SegmentUnavailable(SegmentId),
    /// A remounted segment could not be rolled back.
    Rollback { segment: SegmentId, source: SegmentStateError },
}

/// The contents of a [`ClientManager`].
pub struct ClientsView {
    pub manager_id: u64,
    pub registry: RegistryView,
    pub revoker: PendingWriteRevoker,
    /// What each client has mounted, by the number of the client's id.
    pub slots: Map<u128, MountView>,
    pub graceful: GracefulView,
}

/// The clients together with the pool in which they mount segments.
pub struct Mounts {
    pub clients: ClientsView,
    pub pool: PoolView,
}

pub open spec fn mounts_of(clients: ClientsView, pool: PoolView) -> Mounts {
    Mounts { clients, pool }
}

/// Whether mounted resources and sessions agree: what is mounted belongs to a
/// client's current session, and every active session has a place for what it
/// mounts.
pub open spec fn slots_agree(registry: RegistryView, slots: Map<u128, MountView>) -> bool {
    &&& forall|key: u128| #[trigger]
        slots.contains_key(key) ==> registry.entries.contains_key(key)
            && registry.entries[key].session == slots[key].session
    &&& forall|key: u128| #[trigger]
        registry.entries.contains_key(key) && registry.entries[key].phase == ClientPhase::Active
            ==> slots.contains_key(key)
}

impl PoolView {
    /// The pool after a client hid segments, the last one first, and the first
    /// thing that went wrong.
    pub open spec fn hidden_all(self, client: ClientId, ids: Seq<SegmentId>) -> (
        PoolView,
        Option<(SegmentId, SegmentStateError)>,
    )
        decreases ids.len(),
    {
        if ids.len() == 0 {
            (self, None)
        } else {
            let id = ids.last();
            let rest = self.after_quiesce(client, id).hidden_all(client, ids.drop_last());
            match self.ownership_fault(client, id) {
                Some(fault) => (rest.0, Some((id, fault))),
                None => rest,
            }
        }
    }

    /// On whose behalf a segment is dropped: its owner's.
    pub open spec fn keeper(self, client: ClientId, id: SegmentId) -> ClientId {
        match self.found(id) {
            Some(segment) => segment.owner(),
            None => client,
        }
    }

    /// The pool after segments were dropped on behalf of their owners, the last
    /// one first, and the first thing that went wrong.
    pub open spec fn dropped_all(self, client: ClientId, ids: Seq<SegmentId>) -> (
        PoolView,
        Option<(SegmentId, SegmentStateError)>,
    )
        decreases ids.len(),
    {
        if ids.len() == 0 {
            (self, None)
        } else {
            let id = ids.last();
            let owner = self.keeper(client, id);
            let hidden = self.after_quiesce(owner, id);
            match self.ownership_fault(owner, id) {
                Some(fault) => (
                    hidden.dropped_all(client, ids.drop_last()).0,
                    Some((id, fault)),
                ),
                None => {
                    let rest = hidden.after_remove(owner, id).dropped_all(
                        client,
                        ids.drop_last(),
                    );
                    match hidden.removal_fault(owner, id) {
                        Some(fault) => (rest.0, Some((id, fault))),
                        None => rest,
                    }
                },
            }
        }
    }

    /// The pool after a failed mount was undone: segments that were published
    /// are hidden again, and segments that were attached are dropped.
    pub open spec fn rolled_back(
        self,
        client: ClientId,
        attached: Seq<SegmentId>,
        reactivated: Seq<SegmentId>,
    ) -> (PoolView, Option<(SegmentId, SegmentStateError)>) {
        let hidden = self.hidden_all(client, reactivated);
        let dropped = hidden.0.dropped_all(client, attached);
        (
            dropped.0,
            match hidden.1 {
                Some(fault) => Some(fault),
                None => dropped.1,
            },
        )
    }
}

/// The error that a failed mount ends with: what went wrong while it was undone,
/// or else why it failed.
pub open spec fn undo_error(
    undone: Option<(SegmentId, SegmentStateError)>,
    error: ClientManagerError,
) -> ClientManagerError {
    match undone {
        Some((segment, source)) => ClientManagerError::Rollback { segment, source },
        None => error,
    }
}

/// How far attaching the segments of a client has come.
pub struct AttachWalk {
    pub pool: PoolView,
    pub attached: Seq<SegmentId>,
    pub existing: Seq<SegmentId>,
    pub fault: Option<AttachError>,
}

impl AttachWalk {
    /// Whether `after` follows when one more segment is attached quiesced, with
    /// what that came to.
    pub open spec fn steps_to(
        self,
        after: AttachWalk,
        spec: SegmentSpec,
        outcome: Result<AttachOutcome, AttachError>,
    ) -> bool {
        &&& self.pool.attach_outcome(after.pool, spec@, SegmentState::Quiesced, outcome)
        &&& match outcome {
            Err(error) => {
                &&& after.fault == Some(error)
                &&& after.attached == self.attached
                &&& after.existing == self.existing
            },
            Ok(AttachOutcome::Attached(_)) => {
                &&& after.fault is None
                &&& after.attached == self.attached.push(spec.identity.id)
                &&& after.existing == self.existing
            },
            Ok(AttachOutcome::AlreadyAttached(handle)) => {
                &&& after.fault is None
                &&& after.attached == self.attached
                &&& after.existing == if handle.stats.state == SegmentState::Quiesced {
                    self.existing.push(spec.identity.id)
                } else {
                    self.existing
                }
            },
        }
    }

    /// Whether this is what attaching segments one after the other, up to the
    /// first that fails, comes to.
    pub open spec fn reached(self, start: PoolView, specs: Seq<SegmentSpec>) -> bool
        decreases specs.len(),
    {
        if specs.len() == 0 {
            &&& self.pool == start
            &&& self.attached == Seq::<SegmentId>::empty()
            &&& self.existing == Seq::<SegmentId>::empty()
            &&& self.fault is None
        } else {
            exists|before: AttachWalk, outcome: Result<AttachOutcome, AttachError>|
                {
                    &&& before.reached(start, specs.drop_last())
                    &&& if before.fault is Some {
                        self == before
                    } else {
                        before.steps_to(self, specs.last(), outcome)
                    }
                    &&& #[trigger] step_witness(before, outcome)
                }
        }
    }
}

/// A mark by which a step is found.
pub open spec fn step_witness(before: AttachWalk, outcome: Result<AttachOutcome, AttachError>) -> bool {
    true
}

/// The ids of registrations.
pub open spec fn ids_of(specs: Seq<SegmentSpec>) -> Set<SegmentId> {
    specs.map_values(|spec: SegmentSpec| spec.identity.id).to_set()
}

impl ClientsView {
    pub open spec fn wf(self) -> bool {
        &&& self.registry.wf()
        &&& slots_agree(self.registry, self.slots)
    }

    /// The clients after a client was activated with given segments mounted.
    pub open spec fn activated_with(
        self,
        client: ClientId,
        now: ClientTick,
        segments: Set<SegmentId>,
    ) -> ClientsView {
        let session = self.registry.activate_result(client, now).unwrap().the_session();
        ClientsView {
            registry: self.registry.activated(client, now),
            slots: self.slots.insert(client.raw(), MountView { session, segments }),
            ..self
        }
    }

    /// The clients after the registry was asked to activate a client.
    pub open spec fn activation_tried(self, client: ClientId, now: ClientTick) -> ClientsView {
        ClientsView { registry: self.registry.activated(client, now), ..self }
    }

    /// What a client has mounted.
    pub open spec fn mounted(self, client: ClientId) -> Set<SegmentId> {
        self.slots[client.raw()].segments
    }

    /// What is mounted, with a segment out of what a client has mounted.
    pub open spec fn slot_without(self, client: ClientId, id: SegmentId) -> Map<u128, MountView> {
        let slot = self.slots[client.raw()];
        self.slots.insert(
            client.raw(),
            MountView { segments: slot.segments.remove(id), ..slot },
        )
    }

    pub open spec fn state_of(self, client: ClientId) -> Option<ClientState> {
        if self.registry.has(client) {
            Some(self.registry.entry(client).spec_state())
        } else {
            None
        }
    }
}

impl Mounts {
    /// Whether `after` and `outcome` are what mounting a segment for a client
    /// without a session comes to.
    pub open spec fn mounted_first(
        self,
        after: Mounts,
        client: ClientId,
        spec: SegmentSpec,
        now: ClientTick,
        attached: Result<AttachOutcome, AttachError>,
        pool: PoolView,
        outcome: Result<ActivateOutcome, ClientManagerError>,
    ) -> bool {
        let id = spec.identity.id;
        &&& self.pool.attach_outcome(pool, spec@, SegmentState::Quiesced, attached)
        &&& match attached {
            Err(error) => {
                &&& outcome == Err::<ActivateOutcome, ClientManagerError>(
                    ClientManagerError::Attach(error),
                )
                &&& after == mounts_of(self.clients, pool)
            },
            Ok(segment) => match self.clients.registry.activate_result(client, now) {
                Err(error) => {
                    let undone = pool.rolled_back(
                        client,
                        if segment is Attached {
                            seq![id]
                        } else {
                            Seq::empty()
                        },
                        Seq::empty(),
                    );
                    &&& outcome == Err::<ActivateOutcome, ClientManagerError>(
                        undo_error(undone.1, ClientManagerError::Lifecycle(error)),
                    )
                    &&& after == mounts_of(self.clients.activation_tried(client, now), undone.0)
                },
                Ok(activation) => {
                    &&& outcome == Ok::<ActivateOutcome, ClientManagerError>(activation)
                    &&& after == mounts_of(
                        self.clients.activated_with(client, now, set![id]),
                        pool.after_reactivate(client, id),
                    )
                },
            },
        }
    }

    /// Whether `after` and `outcome` are what mounting one more segment for an
    /// active client comes to.
    pub open spec fn mounted_more(
        self,
        after: Mounts,
        client: ClientId,
        spec: SegmentSpec,
        now: ClientTick,
        attached: Result<AttachOutcome, AttachError>,
        pool: PoolView,
        outcome: Result<ActivateOutcome, ClientManagerError>,
    ) -> bool {
        let id = spec.identity.id;
        &&& self.pool.attach_outcome(pool, spec@, SegmentState::Quiesced, attached)
        &&& match attached {
            Err(error) => {
                &&& outcome == Err::<ActivateOutcome, ClientManagerError>(
                    ClientManagerError::Attach(error),
                )
                &&& after == mounts_of(self.clients, pool)
            },
            Ok(AttachOutcome::AlreadyAttached(_)) => {
                &&& outcome == Err::<ActivateOutcome, ClientManagerError>(
                    ClientManagerError::InconsistentSlot,
                )
                &&& after == mounts_of(self.clients, pool)
            },
            Ok(AttachOutcome::Attached(_)) => {
                let published = pool.after_reactivate(client, id);
                match self.clients.registry.activate_result(client, now) {
                    Err(error) => {
                        let undone = published.rolled_back(client, seq![id], Seq::empty());
                        &&& outcome == Err::<ActivateOutcome, ClientManagerError>(
                            undo_error(undone.1, ClientManagerError::Lifecycle(error)),
                        )
                        &&& after == mounts_of(
                            self.clients.activation_tried(client, now),
                            undone.0,
                        )
                    },
                    Ok(activation) => {
                        &&& outcome == Ok::<ActivateOutcome, ClientManagerError>(activation)
                        &&& after == mounts_of(
                            self.clients.activated_with(
                                client,
                                now,
                                self.clients.mounted(client).insert(id),
                            ),
                            published,
                        )
                    },
                }
            },
        }
    }

    /// What mounting a segment again that an active client has mounted comes to.
    pub open spec fn mount_again_result(self, client: ClientId, spec: SegmentSpec, now: ClientTick) -> Result<
        ActivateOutcome,
        ClientManagerError,
    > {
        let id = spec.identity.id;
        match self.pool.position(id) {
            None => Err(ClientManagerError::InconsistentSlot),
            Some(i) => if self.pool.segments[i].spec@ != spec@ {
                Err(ClientManagerError::ActiveRemountConflict)
            } else if self.pool.segments[i].state != SegmentState::Accepting {
                Err(ClientManagerError::SegmentUnavailable(id))
            } else {
                match self.clients.registry.activate_result(client, now) {
                    Ok(activation) => Ok(activation),
                    Err(error) => Err(ClientManagerError::Lifecycle(error)),
                }
            },
        }
    }

    /// Whether a mounted segment can be mounted again.
    pub open spec fn can_mount_again(self, spec: SegmentSpec) -> bool {
        self.pool.position(spec.identity.id) matches Some(i) && self.pool.segments[i].spec@
            == spec@ && self.pool.segments[i].state == SegmentState::Accepting
    }

    /// Whether `after` and `outcome` are what mounting a segment comes to.
    pub open spec fn mounted(
        self,
        after: Mounts,
        client: ClientId,
        spec: SegmentSpec,
        now: ClientTick,
        outcome: Result<ActivateOutcome, ClientManagerError>,
    ) -> bool {
        let id = spec.identity.id;
        if client.high == 0 && client.low == 0 {
            &&& outcome == Err::<ActivateOutcome, ClientManagerError>(
                ClientManagerError::Lifecycle(ClientLifecycleError::NilClientId),
            )
            &&& after == self
        } else if spec.identity.owner != client {
            &&& outcome == Err::<ActivateOutcome, ClientManagerError>(
                ClientManagerError::SegmentState(
                    SegmentStateError::OwnerMismatch {
                        segment: id,
                        expected: spec.identity.owner,
                        actual: client,
                    },
                ),
            )
            &&& after == self
        } else {
            match self.clients.state_of(client) {
                None => exists|attached: Result<AttachOutcome, AttachError>, pool: PoolView| #[trigger]
                    self.mounted_first(after, client, spec, now, attached, pool, outcome),
                Some(ClientState::Active) => if self.clients.mounted(client).contains(id) {
                    &&& outcome == self.mount_again_result(client, spec, now)
                    &&& after == mounts_of(
                        if self.can_mount_again(spec) {
                            self.clients.activation_tried(client, now)
                        } else {
                            self.clients
                        },
                        self.pool,
                    )
                } else {
                    exists|attached: Result<AttachOutcome, AttachError>, pool: PoolView| #[trigger]
                        self.mounted_more(after, client, spec, now, attached, pool, outcome)
                },
                Some(state) => {
                    &&& outcome == Err::<ActivateOutcome, ClientManagerError>(
                        ClientManagerError::Lifecycle(
                            ClientLifecycleError::CleanupInProgress { state },
                        ),
                    )
                    &&& after == self
                },
            }
        }
    }

    /// Whether `after` and `outcome` are what remounting segments for a client
    /// without a session comes to.
    pub open spec fn remounted_first(
        self,
        after: Mounts,
        client: ClientId,
        specs: Seq<SegmentSpec>,
        now: ClientTick,
        walk: AttachWalk,
        outcome: Result<ActivateOutcome, ClientManagerError>,
    ) -> bool {
        let wanted = walk.attached + walk.existing;
        &&& walk.reached(self.pool, specs)
        &&& if walk.fault is Some {
            let undone = walk.pool.rolled_back(client, walk.attached, Seq::empty());
            &&& outcome == Err::<ActivateOutcome, ClientManagerError>(
                undo_error(undone.1, ClientManagerError::Attach(walk.fault.unwrap())),
            )
            &&& after == mounts_of(self.clients, undone.0)
        } else if walk.pool.batch_fault(client, wanted, 0) is Some {
            let undone = walk.pool.rolled_back(client, walk.attached, walk.existing);
            &&& outcome == Err::<ActivateOutcome, ClientManagerError>(
                undo_error(
                    undone.1,
                    ClientManagerError::SegmentState(
                        walk.pool.batch_fault(client, wanted, 0).unwrap(),
                    ),
                ),
            )
            &&& after == mounts_of(self.clients, undone.0)
        } else {
            let published = if wanted.len() == 0 {
                walk.pool
            } else {
                walk.pool.reactivated(wanted).capacity_announced()
            };
            match self.clients.registry.activate_result(client, now) {
                Err(error) => {
                    let undone = published.rolled_back(client, walk.attached, walk.existing);
                    &&& outcome == Err::<ActivateOutcome, ClientManagerError>(
                        undo_error(undone.1, ClientManagerError::Lifecycle(error)),
                    )
                    &&& after == mounts_of(self.clients.activation_tried(client, now), undone.0)
                },
                Ok(activation) => {
                    &&& outcome == Ok::<ActivateOutcome, ClientManagerError>(activation)
                    &&& after == mounts_of(
                        self.clients.activated_with(client, now, ids_of(specs)),
                        published,
                    )
                },
            }
        }
    }

    /// Whether an active client asks for exactly what it has mounted.
    pub open spec fn matches_mounted(self, client: ClientId, specs: Seq<SegmentSpec>) -> bool {
        &&& ids_of(specs) == self.clients.mounted(client)
        &&& forall|i: int|
            0 <= i < specs.len() ==> match self.pool.position(
                (#[trigger] specs[i]).identity.id,
            ) {
                Some(p) => self.pool.segments[p].spec@ == specs[i]@,
                None => false,
            }
    }

    /// Whether `after` and `outcome` are what remounting segments comes to.
    pub open spec fn remounted(
        self,
        after: Mounts,
        client: ClientId,
        specs: Seq<SegmentSpec>,
        now: ClientTick,
        outcome: Result<ActivateOutcome, ClientManagerError>,
    ) -> bool {
        if client.high == 0 && client.low == 0 {
            &&& outcome == Err::<ActivateOutcome, ClientManagerError>(
                ClientManagerError::Lifecycle(ClientLifecycleError::NilClientId),
            )
            &&& after == self
        } else {
            match self.clients.state_of(client) {
                None => exists|walk: AttachWalk| #[trigger]
                    self.remounted_first(after, client, specs, now, walk, outcome),
                Some(ClientState::Active) => if self.matches_mounted(client, specs) {
                    &&& outcome == match self.clients.registry.activate_result(client, now) {
                        Ok(activation) => Ok::<ActivateOutcome, ClientManagerError>(activation),
                        Err(error) => Err(ClientManagerError::Lifecycle(error)),
                    }
                    &&& after == mounts_of(self.clients.activation_tried(client, now), self.pool)
                } else {
                    &&& outcome == Err::<ActivateOutcome, ClientManagerError>(
                        ClientManagerError::ActiveRemountConflict,
                    )
                    &&& after == self
                },
                Some(state) => {
                    &&& outcome == Err::<ActivateOutcome, ClientManagerError>(
                        ClientManagerError::Lifecycle(
                            ClientLifecycleError::CleanupInProgress { state },
                        ),
                    )
                    &&& after == self
                },
            }
        }
    }

    /// Why a client may not unmount a segment.
    pub open spec fn unmount_fault(self, client: ClientId, id: SegmentId) -> Option<
        ClientManagerError,
    > {
        if client.high == 0 && client.low == 0 {
            Some(ClientManagerError::Lifecycle(ClientLifecycleError::NilClientId))
        } else if id.high == 0 && id.low == 0 {
            Some(ClientManagerError::SegmentState(SegmentStateError::NotFound(id)))
        } else {
            match self.pool.position(id) {
                None => None,
                Some(i) => if self.pool.segments[i].owner() != client {
                    Some(
                        ClientManagerError::SegmentState(
                            SegmentStateError::OwnerMismatch {
                                segment: id,
                                expected: self.pool.segments[i].owner(),
                                actual: client,
                            },
                        ),
                    )
                } else {
                    match self.clients.registry.active_result(client) {
                        Err(error) => Some(ClientManagerError::Lifecycle(error)),
                        Ok(_) => None,
                    }
                },
            }
        }
    }

    /// What unmounting a segment comes to.
    pub open spec fn unmount_result(self, client: ClientId, id: SegmentId) -> Result<
        SegmentUnmountOutcome,
        ClientManagerError,
    > {
        match self.unmount_fault(client, id) {
            Some(error) => Err(error),
            None => if self.pool.position(id) is None {
                Ok(SegmentUnmountOutcome::AlreadyAbsent)
            } else if !self.clients.mounted(client).contains(id) {
                Err(ClientManagerError::InconsistentSlot)
            } else {
                Ok(SegmentUnmountOutcome::Unmounted)
            },
        }
    }

    /// Clients and pool after a segment was unmounted.
    pub open spec fn unmounted(self, client: ClientId, id: SegmentId) -> Mounts {
        match self.unmount_result(client, id) {
            Ok(SegmentUnmountOutcome::Unmounted) => Mounts {
                clients: ClientsView {
                    slots: self.clients.slot_without(client, id),
                    graceful: self.clients.graceful.cancelled(
                        GracefulUnmountKey {
                            session: self.clients.slots[client.raw()].session,
                            segment: id,
                        },
                    ),
                    ..self.clients
                },
                pool: self.pool.after_quiesce(client, id).after_remove(client, id),
            },
            _ => self,
        }
    }

    /// The removal that a client asks for.
    pub open spec fn graceful_key(self, client: ClientId, id: SegmentId) -> GracefulUnmountKey {
        GracefulUnmountKey { session: self.clients.slots[client.raw()].session, segment: id }
    }

    /// The attachment of a segment that is mounted.
    pub open spec fn incarnation_of(self, id: SegmentId) -> SegmentIncarnation {
        SegmentIncarnation {
            pool_id: self.pool.pool_id,
            segment: id,
            incarnation: self.pool.segments[self.pool.position(id).unwrap()].incarnation,
        }
    }

    /// What putting a removal off comes to.
    pub open spec fn schedule_result(self, client: ClientId, id: SegmentId) -> Result<
        (),
        ClientManagerError,
    > {
        match self.unmount_fault(client, id) {
            Some(error) => Err(error),
            None => match self.pool.position(id) {
                None => Err(ClientManagerError::SegmentState(SegmentStateError::NotFound(id))),
                Some(i) => if !self.clients.mounted(client).contains(id) {
                    Err(ClientManagerError::SegmentState(SegmentStateError::NotFound(id)))
                } else if self.pool.segments[i].state == SegmentState::Accepting {
                    Ok(())
                } else if self.clients.graceful.holds(
                    self.graceful_key(client, id),
                    self.incarnation_of(id),
                ) {
                    Ok(())
                } else {
                    Err(ClientManagerError::SegmentUnavailable(id))
                },
            },
        }
    }

    /// Clients and pool after a removal was put off.
    pub open spec fn scheduled(self, client: ClientId, id: SegmentId, deadline: ClientTick) -> Mounts {
        match self.schedule_result(client, id) {
            Err(_) => self,
            Ok(()) => Mounts {
                clients: ClientsView {
                    graceful: self.clients.graceful.scheduled(
                        self.graceful_key(client, id),
                        self.incarnation_of(id),
                        deadline,
                    ),
                    ..self.clients
                },
                pool: if self.pool.segments[self.pool.position(id).unwrap()].state
                    == SegmentState::Accepting {
                    self.pool.after_quiesce(client, id)
                } else {
                    self.pool
                },
            },
        }
    }

    /// Whether a removal is still about what the client has mounted: the same
    /// session and the same attachment.
    pub open spec fn job_applies(self, job: GracefulUnmountJob) -> bool {
        let client = job.key.session.client_id;
        &&& self.clients.slots.contains_key(client.raw())
        &&& self.clients.slots[client.raw()].session == job.key.session
        &&& self.clients.slots[client.raw()].segments.contains(job.key.segment)
        &&& self.pool.position(job.key.segment) is Some
        &&& job.incarnation == self.incarnation_of(job.key.segment)
    }

    /// What executing a removal comes to: whether it removed the segment.
    pub open spec fn complete_result(self, job: GracefulUnmountJob) -> Result<
        bool,
        SegmentStateError,
    > {
        let client = job.key.session.client_id;
        let id = job.key.segment;
        if !self.job_applies(job) {
            Ok(false)
        } else if self.pool.segments[self.pool.position(id).unwrap()].state
            == SegmentState::Accepting {
            match self.pool.ownership_fault(client, id) {
                Some(fault) => Err(fault),
                None => Err(SegmentStateError::StillAccepting(id)),
            }
        } else {
            match self.pool.removal_fault(client, id) {
                Some(fault) => Err(fault),
                None => Ok(true),
            }
        }
    }

    /// Clients and pool after a removal was executed.
    pub open spec fn completed(self, job: GracefulUnmountJob) -> Mounts {
        let client = job.key.session.client_id;
        let id = job.key.segment;
        if !self.job_applies(job) {
            self
        } else if self.pool.segments[self.pool.position(id).unwrap()].state
            == SegmentState::Accepting {
            Mounts { pool: self.pool.after_quiesce(client, id), ..self }
        } else if self.complete_result(job) is Ok {
            Mounts {
                clients: ClientsView { slots: self.clients.slot_without(client, id), ..self.clients },
                pool: self.pool.after_remove(client, id),
            }
        } else {
            self
        }
    }
}

/// How far a round of graceful removals has come.
pub struct GracefulRound {
    pub mounts: Mounts,
    pub report: GracefulUnmountReport,
}

impl GracefulRound {
    /// One claimed removal is executed. One that fails is put off again.
    pub open spec fn step(self, job: GracefulUnmountJob, now: ClientTick) -> GracefulRound {
        let next = self.mounts.completed(job);
        let queue = next.clients.graceful;
        match self.mounts.complete_result(job) {
            Ok(removed) => GracefulRound {
                mounts: Mounts {
                    clients: ClientsView { graceful: queue.finished(job), ..next.clients },
                    ..next
                },
                report: if removed {
                    GracefulUnmountReport {
                        completed: bumped(
                            self.report.completed,
                        ),
                        ..self.report
                    }
                } else {
                    GracefulUnmountReport {
                        stale_or_cancelled: bumped(
                            self.report.stale_or_cancelled,
                        ),
                        ..self.report
                    }
                },
            },
            Err(_) => if queue.can_retry(job) {
                GracefulRound {
                    mounts: Mounts {
                        clients: ClientsView {
                            graceful: queue.inserted(
                                job.key,
                                job.incarnation,
                                now.later(GRACEFUL_UNMOUNT_RETRY_TICKS),
                            ),
                            ..next.clients
                        },
                        ..next
                    },
                    report: GracefulUnmountReport {
                        retried: bumped(self.report.retried),
                        ..self.report
                    },
                }
            } else {
                GracefulRound {
                    mounts: next,
                    report: GracefulUnmountReport {
                        stale_or_cancelled: bumped(
                            self.report.stale_or_cancelled,
                        ),
                        ..self.report
                    },
                }
            },
        }
    }

    /// Claimed removals are executed one after the other.
    pub open spec fn run(self, jobs: Seq<GracefulUnmountJob>, now: ClientTick) -> GracefulRound
        decreases jobs.len(),
    {
        if jobs.len() == 0 {
            self
        } else {
            self.run(jobs.drop_last(), now).step(jobs.last(), now)
        }
    }
}

impl Mounts {
    /// A round of graceful removals.
    pub open spec fn graceful_round(self, now: ClientTick) -> GracefulRound {
        let walk = ClaimWalk { queue: self.clients.graceful, jobs: Seq::empty() }.claim(
            now,
            self.clients.registry.config.cleanup_scan_budget as nat,
        );
        GracefulRound {
            mounts: Mounts {
                clients: ClientsView {
                    graceful: GracefulView { cancelled: 0, ..walk.queue },
                    ..self.clients
                },
                ..self
            },
            report: GracefulUnmountReport {
                completed: 0,
                stale_or_cancelled: walk.queue.cancelled,
                retried: 0,
            },
        }.run(walk.jobs, now)
    }
}

/// Resource coordination around the synchronous [`ClientRegistry`].
pub struct ClientManager {
    manager_id: u64,
    registry: ClientRegistry,
    pending_write_revoker: PendingWriteRevoker,
    slots: HashMap<u128, ClientMountState>,
    graceful_unmounts: GracefulUnmountQueue,
}

impl View for ClientManager {
    type V = ClientsView;

    closed spec fn view(&self) -> ClientsView {
        ClientsView {
            manager_id: self.manager_id,
            registry: self.registry@,
            revoker: self.pending_write_revoker,
            slots: self.slots@.map_values(|slot: ClientMountState| slot@),
            graceful: self.graceful_unmounts@,
        }
    }
}

/// A registry in which no session is replaced and none becomes active agrees
/// with what it agreed with.
proof fn lemma_agree_kept(before: RegistryView, after: RegistryView, slots: Map<u128, MountView>)
    requires
        slots_agree(before, slots),
        forall|key: u128| #[trigger]
            after.entries.contains_key(key) == before.entries.contains_key(key),
        forall|key: u128| #[trigger]
            after.entries.contains_key(key) ==> after.entries[key].session
                == before.entries[key].session && (after.entries[key].phase == ClientPhase::Active
                ==> before.entries[key].phase == ClientPhase::Active),
    ensures
        slots_agree(after, slots),
{
    assert forall|key: u128| #[trigger] slots.contains_key(key) implies after.entries.contains_key(
        key,
    ) && after.entries[key].session == slots[key].session by {
        assert(before.entries.contains_key(key));
        assert(after.entries.contains_key(key) == before.entries.contains_key(key));
    }
    assert forall|key: u128| #[trigger]
        after.entries.contains_key(key) && after.entries[key].phase
            == ClientPhase::Active implies slots.contains_key(key) by {
        assert(before.entries.contains_key(key));
    }
}

impl ClientManager {
    /// What holds of every manager.
    pub closed spec fn wf(&self) -> bool {
        &&& self.registry.wf()
        &&& self.graceful_unmounts.wf()
        &&& slots_agree(self.registry@, self@.slots)
    }

    /// A manager's own invariant, for callers that hold the manager.
    pub proof fn lemma_wf(&self)
        requires
            self.wf(),
        ensures
            self@.wf(),
    {
        self.registry.lemma_wf();
    }

    fn from_registry(
        manager_id: u64,
        pending_write_revoker: PendingWriteRevoker,
        registry: ClientRegistry,
    ) -> (manager: Self)
        requires
            registry.wf(),
            registry@.entries == Map::<u128, ClientEntry>::empty(),
        ensures
            manager.wf(),
            manager@ == (ClientsView {
                manager_id,
                registry: registry@,
                revoker: pending_write_revoker,
                slots: Map::empty(),
                graceful: GracefulView::empty(),
            }),
    {
        let manager = Self {
            manager_id,
            registry,
            pending_write_revoker,
            slots: HashMap::new(),
            graceful_unmounts: GracefulUnmountQueue::new(),
        };
        assert(manager@.slots =~= Map::empty());
        manager
    }

    /// A manager without clients, with the default lifecycle. `manager_id` tells
    /// its state from that of other managers.
    pub fn new(manager_id: u64, pending_write_revoker: PendingWriteRevoker) -> (manager: Self)
        ensures
            manager.wf(),
            manager@ == (ClientsView {
                manager_id,
                registry: RegistryView::usual(),
                revoker: pending_write_revoker,
                slots: Map::empty(),
                graceful: GracefulView::empty(),
            }),
    {
        Self::from_registry(manager_id, pending_write_revoker, ClientRegistry::new())
    }

    pub fn with_config(
        manager_id: u64,
        pending_write_revoker: PendingWriteRevoker,
        config: ClientLifecycleConfig,
    ) -> (made: Result<Self, ClientLifecycleConfigError>)
        ensures
            match config.fault() {
                Some(fault) => made == Err::<Self, ClientLifecycleConfigError>(fault),
                None => made matches Ok(manager) && manager.wf() && manager@ == (ClientsView {
                    manager_id,
                    registry: RegistryView {
                        config,
                        entries: Map::empty(),
                        deadlines: Seq::empty(),
                        ready: Seq::empty(),
                        next_generation: 1,
                    },
                    revoker: pending_write_revoker,
                    slots: Map::empty(),
                    graceful: GracefulView::empty(),
                }),
            },
    {
        match ClientRegistry::with_config(config) {
            Ok(registry) => Ok(Self::from_registry(manager_id, pending_write_revoker, registry)),
            Err(error) => Err(error),
        }
    }

    /// Returns whether two handles drive the same client and graceful-work
    /// state.
    pub fn shares_state_with(&self, other: &Self) -> (shares: bool)
        ensures
            shares == (self@.manager_id == other@.manager_id),
    {
        self.manager_id == other.manager_id
    }

    /// The sessions.
    pub fn registry(&self) -> (registry: &ClientRegistry)
        requires
            self.wf(),
        ensures
            registry.wf(),
            registry@ == self@.registry,
    {
        &self.registry
    }

    pub fn heartbeat(&mut self, client_id: ClientId, now: ClientTick) -> (outcome: HeartbeatOutcome)
        requires
            old(self).wf(),
        ensures
            final(self).wf(),
            outcome == old(self)@.registry.heartbeat_result(client_id, now),
            final(self)@ == (ClientsView {
                registry: old(self)@.registry.heartbeated(client_id, now),
                ..old(self)@
            }),
    {
        let ghost before = self.registry@;
        proof {
            self.registry.lemma_wf();
        }
        let outcome = self.registry.heartbeat(client_id, now);
        proof {
            if before.has(client_id) {
                assert(before.entries.contains_key(client_id.raw()));
            }
            lemma_agree_kept(before, self.registry@, self@.slots);
        }
        outcome
    }

    /// Resolves the exact active session identity used to finish or revoke a
    /// previously admitted object write.
    pub fn write_owner(&self, client_id: ClientId) -> (owner: Result<
        WriteOwner,
        ClientLifecycleError,
    >)
        ensures
            owner == match self@.registry.active_result(client_id) {
                Ok(session) => Ok::<WriteOwner, ClientLifecycleError>(WriteOwner::of(session)),
                Err(error) => Err(error),
            },
    {
        match self.registry.active_session(client_id) {
            Ok(session) => Ok(WriteOwner::for_session(session)),
            Err(error) => Err(error),
        }
    }

    /// Creates a generation-bound admission fence for a new object write.
    pub fn write_admission(&self, client_id: ClientId) -> (admission: Result<
        WriteAdmission,
        ClientLifecycleError,
    >)
        ensures
            match self@.registry.active_result(client_id) {
                Ok(session) => admission matches Ok(admitted) && admitted.owner == WriteOwner::of(
                    session,
                ) && (admitted.session_guard matches Some(guard) && guard.session == session),
                Err(error) => admission == Err::<WriteAdmission, ClientLifecycleError>(error),
            },
    {
        match self.registry.active_session_guard(client_id) {
            Ok(guard) => Ok(WriteAdmission::guarded(guard)),
            Err(error) => Err(error),
        }
    }

    /// The session of what a client has mounted, and whether it has mounted a
    /// segment.
    fn slot_facts(&self, client_id: ClientId, segment: SegmentId) -> (facts: Option<
        (ClientSession, bool),
    >)
        ensures
            facts == if self@.slots.contains_key(client_id.raw()) {
                Some(
                    (
                        self@.slots[client_id.raw()].session,
                        self@.slots[client_id.raw()].segments.contains(segment),
                    ),
                )
            } else {
                None
            },
    {
        broadcast use vstd::std_specs::hash::group_hash_axioms;

        match self.slots.get(&client_id.to_raw()) {
            Some(slot) => Some((slot.session, slot.segments.contains(segment))),
            None => None,
        }
    }

    fn put_slot(&mut self, client_id: ClientId, slot: ClientMountState)
        ensures
            final(self)@ == (ClientsView {
                slots: old(self)@.slots.insert(client_id.raw(), slot@),
                ..old(self)@
            }),
            final(self).registry == old(self).registry,
            final(self).graceful_unmounts == old(self).graceful_unmounts,
    {
        broadcast use vstd::std_specs::hash::group_hash_axioms;

        let ghost before = self@.slots;
        self.slots.insert(client_id.to_raw(), slot);
        assert(self@.slots =~= before.insert(client_id.raw(), slot@));
    }

    fn take_slot(&mut self, client_id: ClientId) -> (taken: Option<ClientMountState>)
        ensures
            match taken {
                Some(slot) => old(self)@.slots.contains_key(client_id.raw()) && slot@ == old(
                    self,
                )@.slots[client_id.raw()],
                None => !old(self)@.slots.contains_key(client_id.raw()),
            },
            final(self)@ == (ClientsView {
                slots: old(self)@.slots.remove(client_id.raw()),
                ..old(self)@
            }),
            final(self).registry == old(self).registry,
            final(self).graceful_unmounts == old(self).graceful_unmounts,
    {
        broadcast use vstd::std_specs::hash::group_hash_axioms;

        let ghost before = self@.slots;
        let taken = self.slots.remove(&client_id.to_raw());
        assert(self@.slots =~= before.remove(client_id.raw()));
        taken
    }

    /// Takes a segment out of what a client has mounted.
    fn forget_segment(&mut self, client_id: ClientId, segment: SegmentId)
        requires
            old(self).wf(),
            old(self)@.slots.contains_key(client_id.raw()),
        ensures
            final(self).wf(),
            final(self)@ == (ClientsView {
                slots: old(self)@.slot_without(client_id, segment),
                ..old(self)@
            }),
    {
        let ghost before = self@;
        if let Some(found) = self.take_slot(client_id) {
            let mut slot = found;
            slot.segments.remove(segment);
            self.put_slot(client_id, slot);
        }
        proof {
            let goal = before.slot_without(client_id, segment);
            assert(self@.slots =~= goal);
        }
    }

    /// Undoes a failed mount: hides again what the client published, and drops
    /// what was attached, on behalf of whom each segment names as its owner.
    /// Returns the first thing that goes wrong.
    #[verifier::rlimit(40)]
    fn rollback(
        pool: &mut SegmentPool,
        client_id: ClientId,
        attached: &Vec<SegmentId>,
        reactivated: &Vec<SegmentId>,
    ) -> (fault: Option<(SegmentId, SegmentStateError)>)
        requires
            old(pool).wf(),
        ensures
            final(pool).wf(),
            ({
                let undone = old(pool)@.rolled_back(client_id, attached@, reactivated@);
                &&& final(pool)@ == undone.0
                &&& fault == undone.1
            }),
            can_undo(old(pool)@, attached@) ==> {
                &&& fault == old(pool)@.hidden_all(client_id, reactivated@).1
                &&& forall|id: SegmentId| #[trigger]
                    final(pool)@.found(id) == found_undone(
                        old(pool)@,
                        client_id,
                        attached@,
                        reactivated@,
                        id,
                    )
            },
    {
        let ghost origin = pool@;
        let ghost orderly = can_undo(pool@, attached@);
        assert(reactivated@.skip(reactivated@.len() as int) =~= Seq::empty());
        let mut hidden_fault: Option<(SegmentId, SegmentStateError)> = None;
        let ghost goal = origin.hidden_all(client_id, reactivated@);
        let mut i: usize = reactivated.len();
        assert(reactivated@.take(i as int) =~= reactivated@);
        while i > 0
            invariant
                pool.wf(),
                i <= reactivated@.len(),
                goal == origin.hidden_all(client_id, reactivated@),
                ({
                    let rest = pool@.hidden_all(client_id, reactivated@.take(i as int));
                    &&& goal.0 == rest.0
                    &&& goal.1 == match hidden_fault {
                        Some(fault) => Some(fault),
                        None => rest.1,
                    }
                }),
                forall|id: SegmentId| #[trigger]
                    pool@.found(id) == found_hidden(
                        origin,
                        client_id,
                        reactivated@.skip(i as int),
                        id,
                    ),
            decreases i,
        {
            let ghost previous = pool@;
            let ghost done = reactivated@.skip(i as int);
            i = i - 1;
            let segment = reactivated[i];
            proof {
                pool.lemma_wf();
                assert(reactivated@.skip(i as int) =~= seq![segment] + done);
                assert(reactivated@[i as int] == segment);
                assert(reactivated@.take(i as int + 1).drop_last() =~= reactivated@.take(
                    i as int,
                ));
            }
            if let Err(source) = pool.quiesce(client_id, segment) {
                if hidden_fault.is_none() {
                    hidden_fault = Some((segment, source));
                }
            }
            proof {
                pool.lemma_wf();
                if previous.ownership_fault(client_id, segment) is None {
                    lemma_found_after_quiesce(previous, pool@, client_id, segment);
                }
                lemma_hidden_more(origin, client_id, done, segment);
                assert(seq![segment][0] == segment);
                assert forall|id: SegmentId| #[trigger] pool@.found(id) == found_hidden(
                    origin,
                    client_id,
                    reactivated@.skip(i as int),
                    id,
                ) by {
                    assert(previous.found(id) == found_hidden(origin, client_id, done, id));
                    assert(found_hidden(origin, client_id, seq![segment] + done, id)
                        == found_hidden(origin, client_id, reactivated@.skip(i as int), id));
                }
            }
        }
        assert(reactivated@.take(0) =~= Seq::empty());
        assert(pool@ == goal.0 && hidden_fault == goal.1);
        let ghost middle = pool@;
        proof {
            assert(reactivated@.skip(0) =~= reactivated@);
            assert(attached@.skip(attached@.len() as int) =~= Seq::empty());
            if orderly {
                assert forall|k: int| 0 <= k < attached@.len() implies middle.found(
                    #[trigger] attached@[k],
                ) is Some by {
                    assert(origin.found(attached@[k]) is Some);
                }
            }
        }
        let mut fault: Option<(SegmentId, SegmentStateError)> = None;
        let ghost goal = middle.dropped_all(client_id, attached@);
        let mut i: usize = attached.len();
        assert(attached@.take(i as int) =~= attached@);
        while i > 0
            invariant
                pool.wf(),
                i <= attached@.len(),
                goal == middle.dropped_all(client_id, attached@),
                ({
                    let rest = pool@.dropped_all(client_id, attached@.take(i as int));
                    &&& goal.0 == rest.0
                    &&& goal.1 == match fault {
                        Some(fault) => Some(fault),
                        None => rest.1,
                    }
                }),
                orderly ==> all_found(middle, attached@) && attached@.no_duplicates()
                    && fault is None && (forall|id: SegmentId| #[trigger]
                    pool@.found(id) == if attached@.skip(i as int).contains(id) {
                        None
                    } else {
                        middle.found(id)
                    }),
            decreases i,
        {
            let ghost previous = pool@;
            let ghost done = attached@.skip(i as int);
            i = i - 1;
            let segment = attached[i];
            proof {
                pool.lemma_wf();
                assert(attached@.skip(i as int) =~= seq![segment] + done);
                assert(attached@[i as int] == segment);
                if orderly {
                    if done.contains(segment) {
                        let k = choose|k: int| 0 <= k < done.len() && done[k] == segment;
                        assert(attached@[i as int + 1 + k] == segment);
                    }
                    assert(previous.found(segment) == middle.found(segment));
                }
                assert(attached@.take(i as int + 1).drop_last() =~= attached@.take(i as int));
            }
            let owner = match pool.segment(segment) {
                Some(handle) => handle.spec().identity.owner,
                None => client_id,
            };
            assert(owner == previous.keeper(client_id, segment));
            let quiesced = pool.quiesce(owner, segment);
            let ghost between = pool@;
            proof {
                pool.lemma_wf();
                if orderly {
                    lemma_found_after_quiesce(previous, between, owner, segment);
                }
            }
            match quiesced {
                Err(source) => {
                    if fault.is_none() {
                        fault = Some((segment, source));
                    }
                },
                Ok(()) => {
                    if let Err(source) = pool.remove(owner, segment) {
                        if fault.is_none() {
                            fault = Some((segment, source));
                        }
                    }
                },
            }
            proof {
                pool.lemma_wf();
                if orderly {
                    lemma_found_after_remove(between, pool@, owner, segment);
                    lemma_contains_more(done, segment);
                }
            }
        }
        assert(attached@.take(0) =~= Seq::empty());
        assert(attached@.skip(0) =~= attached@);
        match hidden_fault {
            Some(found) => Some(found),
            None => fault,
        }
    }

    /// Activates a client.
    fn try_activate(&mut self, client_id: ClientId, now: ClientTick) -> (activated: Result<
        ActivateOutcome,
        ClientLifecycleError,
    >)
        requires
            old(self).wf(),
        ensures
            final(self).registry.wf(),
            final(self).graceful_unmounts.wf(),
            activated == old(self)@.registry.activate_result(client_id, now),
            final(self)@ == old(self)@.activation_tried(client_id, now),
            !(activated matches Ok(ActivateOutcome::Activated(_))) ==> final(self).wf(),
    {
        let ghost before = self.registry@;
        proof {
            self.registry.lemma_wf();
        }
        let activated = self.registry.activate(client_id, now);
        proof {
            if before.has(client_id) {
                assert(before.entries.contains_key(client_id.raw()));
                law_client_id_round_trip(before.entry(client_id).session.client_id, client_id, 0);
            }
            if !(activated matches Ok(ActivateOutcome::Activated(_))) {
                lemma_agree_kept(before, self.registry@, self@.slots);
            }
        }
        activated
    }

    /// Activates a client together with what it has mounted.
    fn activate_with(&mut self, client_id: ClientId, now: ClientTick, segments: SegmentSet) -> (activated: Result<
        ActivateOutcome,
        ClientLifecycleError,
    >)
        requires
            old(self).wf(),
        ensures
            final(self).wf(),
            activated == old(self)@.registry.activate_result(client_id, now),
            final(self)@ == if activated is Ok {
                old(self)@.activated_with(client_id, now, segments@)
            } else {
                old(self)@.activation_tried(client_id, now)
            },
    {
        let ghost before = self@;
        proof {
            self.registry.lemma_wf();
        }
        let activation = match self.try_activate(client_id, now) {
            Ok(activation) => activation,
            Err(error) => return Err(error),
        };
        let session = activation.session();
        self.put_slot(client_id, ClientMountState { session, segments });
        proof {
            let key = client_id.raw();
            if before.registry.has(client_id) {
                assert(before.registry.entries.contains_key(key));
                law_client_id_round_trip(
                    before.registry.entry(client_id).session.client_id,
                    client_id,
                    0,
                );
            }
            assert forall|other: u128| #[trigger]
                self@.slots.contains_key(other) implies self@.registry.entries.contains_key(other)
                && self@.registry.entries[other].session == self@.slots[other].session by {
                if other != key {
                    assert(before.slots.contains_key(other));
                }
            }
            assert forall|other: u128| #[trigger]
                self@.registry.entries.contains_key(other) && self@.registry.entries[other].phase
                    == ClientPhase::Active implies self@.slots.contains_key(other) by {
                if other != key {
                    assert(before.registry.entries.contains_key(other));
                }
            }
        }
        Ok(activation)
    }

    /// Mounts one segment for an active client, or establishes the first client
    /// session when the client is absent.
    pub fn mount_segment(
        &mut self,
        pool: &mut SegmentPool,
        client_id: ClientId,
        spec: SegmentSpec,
        now: ClientTick,
    ) -> (mounted: Result<ActivateOutcome, ClientManagerError>)
        requires
            old(self).wf(),
            old(pool).wf(),
        ensures
            final(self).wf(),
            final(pool).wf(),
            mounts_of(old(self)@, old(pool)@).mounted(
                mounts_of(final(self)@, final(pool)@),
                client_id,
                spec,
                now,
                mounted,
            ),
    {
        if client_id.is_nil() {
            return Err(ClientManagerError::Lifecycle(ClientLifecycleError::NilClientId));
        }
        if spec.identity.owner != client_id {
            return Err(
                ClientManagerError::SegmentState(
                    SegmentStateError::OwnerMismatch {
                        segment: spec.identity.id,
                        expected: spec.identity.owner,
                        actual: client_id,
                    },
                ),
            );
        }
        match self.registry.state(client_id) {
            None => self.mount_segment_absent(pool, client_id, spec, now),
            Some(ClientState::Active) => self.mount_segment_active(pool, client_id, spec, now),
            Some(state) => Err(
                ClientManagerError::Lifecycle(ClientLifecycleError::CleanupInProgress { state }),
            ),
        }
    }

    fn mount_segment_absent(
        &mut self,
        pool: &mut SegmentPool,
        client_id: ClientId,
        spec: SegmentSpec,
        now: ClientTick,
    ) -> (mounted: Result<ActivateOutcome, ClientManagerError>)
        requires
            old(self).wf(),
            old(pool).wf(),
            spec.identity.owner == client_id,
            !old(self)@.registry.has(client_id),
        ensures
            final(self).wf(),
            final(pool).wf(),
            exists|attached: Result<AttachOutcome, AttachError>, middle: PoolView| #[trigger]
                mounts_of(old(self)@, old(pool)@).mounted_first(
                    mounts_of(final(self)@, final(pool)@),
                    client_id,
                    spec,
                    now,
                    attached,
                    middle,
                    mounted,
                ),
    {
        let ghost before = mounts_of(self@, pool@);
        let segment_id = spec.identity.id;
        proof {
            pool.lemma_wf();
        }
        let attached = pool.attach_quiesced(spec);
        let ghost middle = pool@;
        let outcome = match attached {
            Ok(outcome) => outcome,
            Err(error) => {
                let mounted = Err(ClientManagerError::Attach(error));
                assert(before.mounted_first(
                    mounts_of(self@, pool@),
                    client_id,
                    spec,
                    now,
                    attached,
                    middle,
                    mounted,
                ));
                return mounted;
            },
        };
        proof {
            pool.lemma_wf();
            lemma_attached_owner(before.pool, middle, spec, attached, client_id);
        }
        let mut segments = SegmentSet::new();
        segments.insert(segment_id);
        assert(segments@ =~= set![segment_id]);
        match self.activate_with(client_id, now, segments) {
            Err(error) => {
                let mut added: Vec<SegmentId> = Vec::new();
                if outcome.is_new() {
                    added.push(segment_id);
                }
                let none: Vec<SegmentId> = Vec::new();
                assert(none@ =~= Seq::empty());
                assert(added@ =~= if outcome is Attached {
                    seq![segment_id]
                } else {
                    Seq::empty()
                });
                let mounted = match Self::rollback(pool, client_id, &added, &none) {
                    Some((segment, source)) => Err(
                        ClientManagerError::Rollback { segment, source },
                    ),
                    None => Err(ClientManagerError::Lifecycle(error)),
                };
                assert(before.mounted_first(
                    mounts_of(self@, pool@),
                    client_id,
                    spec,
                    now,
                    attached,
                    middle,
                    mounted,
                ));
                mounted
            },
            Ok(activation) => {
                let _ = pool.reactivate(client_id, segment_id);
                let mounted = Ok(activation);
                assert(before.mounted_first(
                    mounts_of(self@, pool@),
                    client_id,
                    spec,
                    now,
                    attached,
                    middle,
                    mounted,
                ));
                mounted
            },
        }
    }

    fn mount_segment_active(
        &mut self,
        pool: &mut SegmentPool,
        client_id: ClientId,
        spec: SegmentSpec,
        now: ClientTick,
    ) -> (mounted: Result<ActivateOutcome, ClientManagerError>)
        requires
            old(self).wf(),
            old(pool).wf(),
            spec.identity.owner == client_id,
            old(self)@.state_of(client_id) == Some(ClientState::Active),
        ensures
            final(self).wf(),
            final(pool).wf(),
            ({
                let before = mounts_of(old(self)@, old(pool)@);
                let after = mounts_of(final(self)@, final(pool)@);
                if old(self)@.mounted(client_id).contains(spec.identity.id) {
                    &&& mounted == before.mount_again_result(client_id, spec, now)
                    &&& after == mounts_of(
                        if before.can_mount_again(spec) {
                            old(self)@.activation_tried(client_id, now)
                        } else {
                            old(self)@
                        },
                        old(pool)@,
                    )
                } else {
                    exists|attached: Result<AttachOutcome, AttachError>, middle: PoolView| #[trigger]
                        before.mounted_more(
                            after,
                            client_id,
                            spec,
                            now,
                            attached,
                            middle,
                            mounted,
                        )
                }
            }),
    {
        let ghost before = mounts_of(self@, pool@);
        let segment_id = spec.identity.id;
        proof {
            pool.lemma_wf();
            self.registry.lemma_wf();
            assert(self@.registry.entries.contains_key(client_id.raw()));
            assert(self@.slots.contains_key(client_id.raw()));
            law_client_id_round_trip(
                self@.registry.entry(client_id).session.client_id,
                client_id,
                0,
            );
        }
        let held = match self.slot_facts(client_id, segment_id) {
            Some((_, held)) => held,
            None => {
                assert(false);
                false
            },
        };
        if held {
            let segment = match pool.segment(segment_id) {
                Some(segment) => segment,
                None => return Err(ClientManagerError::InconsistentSlot),
            };
            if !segment.spec().same_as(&spec) {
                return Err(ClientManagerError::ActiveRemountConflict);
            }
            if segment.stats().state != SegmentState::Accepting {
                return Err(ClientManagerError::SegmentUnavailable(segment_id));
            }
            return match self.try_activate(client_id, now) {
                Ok(activation) => Ok(activation),
                Err(error) => Err(ClientManagerError::Lifecycle(error)),
            };
        }
        let attached = pool.attach_quiesced(spec);
        let ghost middle = pool@;
        let outcome = match attached {
            Ok(outcome) => outcome,
            Err(error) => {
                let mounted = Err(ClientManagerError::Attach(error));
                assert(before.mounted_more(
                    mounts_of(self@, pool@),
                    client_id,
                    spec,
                    now,
                    attached,
                    middle,
                    mounted,
                ));
                return mounted;
            },
        };
        if !outcome.is_new() {
            let mounted = Err(ClientManagerError::InconsistentSlot);
            assert(before.mounted_more(
                mounts_of(self@, pool@),
                client_id,
                spec,
                now,
                attached,
                middle,
                mounted,
            ));
            return mounted;
        }
        proof {
            pool.lemma_wf();
            lemma_attached_owner(before.pool, middle, spec, attached, client_id);
        }
        let _ = pool.reactivate(client_id, segment_id);
        let ghost published = pool@;
        let activated = self.try_activate(client_id, now);
        match activated {
            Err(error) => {
                let mut added: Vec<SegmentId> = Vec::new();
                added.push(segment_id);
                let none: Vec<SegmentId> = Vec::new();
                assert(none@ =~= Seq::empty());
                assert(added@ =~= seq![segment_id]);
                let mounted = match Self::rollback(pool, client_id, &added, &none) {
                    Some((segment, source)) => Err(
                        ClientManagerError::Rollback { segment, source },
                    ),
                    None => Err(ClientManagerError::Lifecycle(error)),
                };
                assert(before.mounted_more(
                    mounts_of(self@, pool@),
                    client_id,
                    spec,
                    now,
                    attached,
                    middle,
                    mounted,
                ));
                mounted
            },
            Ok(activation) => {
                if let Some(found) = self.take_slot(client_id) {
                    let mut slot = found;
                    slot.segments.insert(segment_id);
                    self.put_slot(client_id, slot);
                }
                let mounted = Ok(activation);
                proof {
                    let goal = before.clients.activated_with(
                        client_id,
                        now,
                        before.clients.mounted(client_id).insert(segment_id),
                    );
                    assert(self@.slots =~= goal.slots);
                    assert(self@ == goal);
                    assert(before.mounted_more(
                        mounts_of(self@, pool@),
                        client_id,
                        spec,
                        now,
                        attached,
                        middle,
                        mounted,
                    ));
                }
                mounted
            },
        }
    }

    /// Atomically establishes the resource/session relationship for one client,
    /// rolling back only resources changed by this remount attempt. A failed
    /// attempt leaves exactly the segments mounted that were mounted before.
    pub fn remount(
        &mut self,
        pool: &mut SegmentPool,
        client_id: ClientId,
        segments: Vec<SegmentSpec>,
        now: ClientTick,
    ) -> (remounted: Result<ActivateOutcome, ClientManagerError>)
        requires
            old(self).wf(),
            old(pool).wf(),
        ensures
            final(self).wf(),
            final(pool).wf(),
            mounts_of(old(self)@, old(pool)@).remounted(
                mounts_of(final(self)@, final(pool)@),
                client_id,
                segments@,
                now,
                remounted,
            ),
            remounted is Err ==> old(pool)@.same_segments(final(pool)@),
    {
        if client_id.is_nil() {
            return Err(ClientManagerError::Lifecycle(ClientLifecycleError::NilClientId));
        }
        match self.registry.state(client_id) {
            Some(ClientState::Active) => self.remount_active(pool, client_id, &segments, now),
            Some(state) => Err(
                ClientManagerError::Lifecycle(ClientLifecycleError::CleanupInProgress { state }),
            ),
            None => self.remount_absent(pool, client_id, &segments, now),
        }
    }

    fn remount_active(
        &mut self,
        pool: &SegmentPool,
        client_id: ClientId,
        segments: &Vec<SegmentSpec>,
        now: ClientTick,
    ) -> (remounted: Result<ActivateOutcome, ClientManagerError>)
        requires
            old(self).wf(),
            pool.wf(),
            old(self)@.state_of(client_id) == Some(ClientState::Active),
        ensures
            final(self).wf(),
            if mounts_of(old(self)@, pool@).matches_mounted(client_id, segments@) {
                &&& remounted == match old(self)@.registry.activate_result(client_id, now) {
                    Ok(activation) => Ok::<ActivateOutcome, ClientManagerError>(activation),
                    Err(error) => Err(ClientManagerError::Lifecycle(error)),
                }
                &&& final(self)@ == old(self)@.activation_tried(client_id, now)
            } else {
                &&& remounted == Err::<ActivateOutcome, ClientManagerError>(
                    ClientManagerError::ActiveRemountConflict,
                )
                &&& final(self)@ == old(self)@
            },
    {
        proof {
            pool.lemma_wf();
            self.registry.lemma_wf();
            assert(self@.registry.entries.contains_key(client_id.raw()));
            assert(self@.slots.contains_key(client_id.raw()));
            law_client_id_round_trip(
                self@.registry.entry(client_id).session.client_id,
                client_id,
                0,
            );
        }
        let requested = Self::ids_requested(segments);
        if !self.mounts_exactly(client_id, &requested) {
            return Err(ClientManagerError::ActiveRemountConflict);
        }
        let mut i: usize = 0;
        while i < segments.len()
            invariant
                i <= segments@.len(),
                pool.wf(),
                forall|j: int|
                    0 <= j < i ==> match pool@.position((#[trigger] segments@[j]).identity.id) {
                        Some(p) => pool@.segments[p].spec@ == segments@[j]@,
                        None => false,
                    },
                *self == *old(self),
                old(self).wf(),
            decreases segments@.len() - i,
        {
            let spec = &segments[i];
            match pool.segment(spec.identity.id) {
                None => {
                    assert(segments@[i as int].identity.id == spec.identity.id);
                    return Err(ClientManagerError::ActiveRemountConflict);
                },
                Some(segment) => {
                    if !segment.spec().same_as(spec) {
                        assert(segments@[i as int].identity.id == spec.identity.id);
                        return Err(ClientManagerError::ActiveRemountConflict);
                    }
                },
            }
            i = i + 1;
        }
        match self.try_activate(client_id, now) {
            Ok(activation) => Ok(activation),
            Err(error) => Err(ClientManagerError::Lifecycle(error)),
        }
    }

    /// The ids of registrations.
    fn ids_requested(segments: &Vec<SegmentSpec>) -> (requested: SegmentSet)
        ensures
            requested@ == ids_of(segments@),
    {
        let mut requested = SegmentSet::new();
        let mut i: usize = 0;
        assert(requested@ =~= ids_of(segments@.take(0)));
        while i < segments.len()
            invariant
                i <= segments@.len(),
                requested@ == ids_of(segments@.take(i as int)),
            decreases segments@.len() - i,
        {
            requested.insert(segments[i].identity.id);
            proof {
                lemma_ids_pushed(segments@.take(i as int), segments@[i as int]);
                assert(segments@.take(i as int).push(segments@[i as int]) =~= segments@.take(
                    i as int + 1,
                ));
            }
            i = i + 1;
        }
        assert(segments@.take(i as int) =~= segments@);
        requested
    }

    /// Whether a client has exactly some segments mounted.
    fn mounts_exactly(&self, client_id: ClientId, requested: &SegmentSet) -> (same: bool)
        requires
            self@.slots.contains_key(client_id.raw()),
        ensures
            same == (requested@ == self@.mounted(client_id)),
    {
        broadcast use vstd::std_specs::hash::group_hash_axioms;

        match self.slots.get(&client_id.to_raw()) {
            Some(slot) => requested.same_as(&slot.segments),
            None => false,
        }
    }

    fn remount_absent(
        &mut self,
        pool: &mut SegmentPool,
        client_id: ClientId,
        segments: &Vec<SegmentSpec>,
        now: ClientTick,
    ) -> (remounted: Result<ActivateOutcome, ClientManagerError>)
        requires
            old(self).wf(),
            old(pool).wf(),
            !old(self)@.registry.has(client_id),
        ensures
            final(self).wf(),
            final(pool).wf(),
            remounted is Err ==> old(pool)@.same_segments(final(pool)@),
            exists|walk: AttachWalk| #[trigger]
                mounts_of(old(self)@, old(pool)@).remounted_first(
                    mounts_of(final(self)@, final(pool)@),
                    client_id,
                    segments@,
                    now,
                    walk,
                    remounted,
                ),
    {
        let ghost before = mounts_of(self@, pool@);
        let mut attached: Vec<SegmentId> = Vec::new();
        let mut existing: Vec<SegmentId> = Vec::new();
        proof {
            pool.lemma_wf();
        }
        let ghost mut walk = AttachWalk {
            pool: pool@,
            attached: Seq::empty(),
            existing: Seq::empty(),
            fault: None,
        };
        let mut i: usize = 0;
        assert(walk.reached(before.pool, segments@.take(0)));
        while i < segments.len()
            invariant
                i <= segments@.len(),
                pool.wf(),
                *self == *old(self),
                old(self).wf(),
                before == mounts_of(old(self)@, old(pool)@),
                walk.reached(before.pool, segments@.take(i as int)),
                walk.fault is None,
                walk.pool == pool@,
                walk.attached == attached@,
                walk.existing == existing@,
                has_grown(before.pool, pool@, attached@, existing@),
            decreases segments@.len() - i,
        {
            let ghost previous = walk;
            proof {
                pool.lemma_wf();
            }
            let segment_id = segments[i].identity.id;
            let outcome = pool.attach_quiesced(segments[i].duplicate());
            proof {
                assert(segments@.take(i as int + 1).drop_last() =~= segments@.take(i as int));
                assert(step_witness(previous, outcome));
                pool.lemma_wf();
                lemma_grows(
                    before.pool,
                    previous.pool,
                    pool@,
                    previous.attached,
                    previous.existing,
                    segments@[i as int],
                    outcome,
                );
            }
            match &outcome {
                Err(error) => {
                    let ghost reason = *error;
                    proof {
                        walk = AttachWalk { pool: pool@, fault: Some(reason), ..previous };
                        assert(previous.steps_to(walk, segments@[i as int], outcome));
                        assert(walk.reached(before.pool, segments@.take(i as int + 1)));
                        lemma_stopped_walk(walk, before.pool, segments@, i as int + 1);
                        assert(segments@.take(segments@.len() as int) =~= segments@);
                    }
                },
                Ok(AttachOutcome::Attached(_)) => {
                    attached.push(segment_id);
                    proof {
                        walk = AttachWalk { pool: pool@, attached: attached@, ..previous };
                        assert(previous.steps_to(walk, segments@[i as int], outcome));
                    }
                },
                Ok(AttachOutcome::AlreadyAttached(segment)) => {
                    if segment.stats().state == SegmentState::Quiesced {
                        existing.push(segment_id);
                    }
                    proof {
                        walk = AttachWalk { pool: pool@, existing: existing@, ..previous };
                        assert(previous.steps_to(walk, segments@[i as int], outcome));
                    }
                },
            }
            if let Err(error) = outcome {
                let none: Vec<SegmentId> = Vec::new();
                assert(none@ =~= Seq::empty());
                let ghost grown = pool@;
                let remounted = match Self::rollback(pool, client_id, &attached, &none) {
                    Some((segment, source)) => Err(
                        ClientManagerError::Rollback { segment, source },
                    ),
                    None => Err(ClientManagerError::Attach(error)),
                };
                proof {
                    assert(can_undo(grown, attached@));
                    lemma_undone(
                        before.pool,
                        grown,
                        grown,
                        pool@,
                        client_id,
                        attached@,
                        existing@,
                        none@,
                    );
                }
                assert(before.remounted_first(
                    mounts_of(self@, pool@),
                    client_id,
                    segments@,
                    now,
                    walk,
                    remounted,
                ));
                return remounted;
            }
            i = i + 1;
        }
        assert(segments@.take(i as int) =~= segments@);
        self.publish_remount(pool, client_id, segments, now, &attached, &existing, Ghost(before), Ghost(walk))
    }

    /// Publishes the segments that a remount attached and establishes the
    /// session.
    fn publish_remount(
        &mut self,
        pool: &mut SegmentPool,
        client_id: ClientId,
        segments: &Vec<SegmentSpec>,
        now: ClientTick,
        attached: &Vec<SegmentId>,
        existing: &Vec<SegmentId>,
        before: Ghost<Mounts>,
        walk: Ghost<AttachWalk>,
    ) -> (remounted: Result<ActivateOutcome, ClientManagerError>)
        requires
            old(self).wf(),
            old(pool).wf(),
            !old(self)@.registry.has(client_id),
            before@.clients == old(self)@,
            walk@.reached(before@.pool, segments@),
            walk@.fault is None,
            walk@.pool == old(pool)@,
            walk@.attached == attached@,
            walk@.existing == existing@,
            has_grown(before@.pool, old(pool)@, attached@, existing@),
        ensures
            final(self).wf(),
            final(pool).wf(),
            remounted is Err ==> before@.pool.same_segments(final(pool)@),
            before@.remounted_first(
                mounts_of(final(self)@, final(pool)@),
                client_id,
                segments@,
                now,
                walk@,
                remounted,
            ),
    {
        let mut wanted: Vec<SegmentId> = Vec::new();
        let mut i: usize = 0;
        while i < attached.len()
            invariant
                i <= attached@.len(),
                wanted@ == attached@.take(i as int),
            decreases attached@.len() - i,
        {
            wanted.push(attached[i]);
            i = i + 1;
            assert(wanted@ =~= attached@.take(i as int));
        }
        let mut i: usize = 0;
        assert(wanted@ =~= attached@ + existing@.take(0));
        while i < existing.len()
            invariant
                i <= existing@.len(),
                wanted@ == attached@ + existing@.take(i as int),
            decreases existing@.len() - i,
        {
            wanted.push(existing[i]);
            i = i + 1;
            assert(wanted@ =~= attached@ + existing@.take(i as int));
        }
        assert(existing@.take(i as int) =~= existing@);
        let ghost grown = pool@;
        proof {
            pool.lemma_wf();
            assert(can_undo(grown, attached@));
        }
        if let Err(error) = pool.reactivate_many(client_id, wanted.as_slice()) {
            let remounted = match Self::rollback(pool, client_id, attached, existing) {
                Some((segment, source)) => Err(ClientManagerError::Rollback { segment, source }),
                None => Err(ClientManagerError::SegmentState(error)),
            };
            proof {
                lemma_undone(
                    before@.pool,
                    grown,
                    grown,
                    pool@,
                    client_id,
                    attached@,
                    existing@,
                    existing@,
                );
            }
            return remounted;
        }
        let ghost published = pool@;
        proof {
            pool.lemma_wf();
            if wanted@.len() > 0 {
                lemma_found_reactivated(grown, published, wanted@);
            }
            lemma_batch_owned(grown, client_id, wanted@, 0);
            lemma_published(grown, published, client_id, attached@, existing@, wanted@);
        }
        // The session becomes visible only after all mounted resources are
        // accepting, so write admission never observes a half-mounted session.
        let mounted = Self::ids_requested(segments);
        match self.activate_with(client_id, now, mounted) {
            Ok(activation) => Ok(activation),
            Err(error) => {
                let remounted = match Self::rollback(pool, client_id, attached, existing) {
                    Some((segment, source)) => Err(
                        ClientManagerError::Rollback { segment, source },
                    ),
                    None => Err(ClientManagerError::Lifecycle(error)),
                };
                proof {
                    lemma_undone(
                        before@.pool,
                        grown,
                        published,
                        pool@,
                        client_id,
                        attached@,
                        existing@,
                        existing@,
                    );
                }
                remounted
            },
        }
    }

    /// Immediately quiesces and removes one mounted segment. A missing segment
    /// is an idempotent success and does not require a live client session.
    pub fn unmount_segment(
        &mut self,
        pool: &mut SegmentPool,
        client_id: ClientId,
        segment_id: SegmentId,
    ) -> (unmounted: Result<SegmentUnmountOutcome, ClientManagerError>)
        requires
            old(self).wf(),
            old(pool).wf(),
        ensures
            final(self).wf(),
            final(pool).wf(),
            unmounted == mounts_of(old(self)@, old(pool)@).unmount_result(client_id, segment_id),
            mounts_of(final(self)@, final(pool)@) == mounts_of(
                old(self)@,
                old(pool)@,
            ).unmounted(client_id, segment_id),
    {
        let ghost before = mounts_of(self@, pool@);
        proof {
            pool.lemma_wf();
            self.registry.lemma_wf();
        }
        let (session, _) = match self.mounted_segment(pool, client_id, segment_id) {
            Err(error) => return Err(error),
            Ok(None) => return Ok(SegmentUnmountOutcome::AlreadyAbsent),
            Ok(Some(found)) => found,
        };
        match self.slot_facts(client_id, segment_id) {
            Some((current, true)) => {
                assert(current == session);
            },
            _ => return Err(ClientManagerError::InconsistentSlot),
        }
        let _ = pool.quiesce(client_id, segment_id);
        proof {
            let i = before.pool.position(segment_id).unwrap();
            crate::segment::pool::lemma_position(before.pool, i);
            pool.lemma_wf();
            crate::segment::pool::lemma_position(pool@, i);
        }
        let _ = pool.remove(client_id, segment_id);
        self.forget_segment(client_id, segment_id);
        self.graceful_unmounts.cancel(GracefulUnmountKey { session, segment: segment_id });
        Ok(SegmentUnmountOutcome::Unmounted)
    }

    /// The session of a client and the segment that it asks to unmount, if the
    /// segment is mounted.
    fn mounted_segment(&self, pool: &SegmentPool, client_id: ClientId, segment_id: SegmentId) -> (found: Result<
        Option<(ClientSession, SegmentHandle)>,
        ClientManagerError,
    >)
        requires
            self.wf(),
            pool.wf(),
        ensures
            match mounts_of(self@, pool@).unmount_fault(client_id, segment_id) {
                Some(fault) => found == Err::<
                    Option<(ClientSession, SegmentHandle)>,
                    ClientManagerError,
                >(fault),
                None => match pool@.position(segment_id) {
                    None => found matches Ok(held) && held is None,
                    Some(i) => found matches Ok(held) && (held matches Some((session, segment))
                        && session == self@.slots[client_id.raw()].session
                        && self@.slots.contains_key(client_id.raw())
                        && self@.state_of(client_id) == Some(ClientState::Active)
                        && pool@.segments[i].is_handle(pool@.pool_id, segment)),
                },
            },
    {
        proof {
            pool.lemma_wf();
            self.registry.lemma_wf();
        }
        if client_id.is_nil() {
            return Err(ClientManagerError::Lifecycle(ClientLifecycleError::NilClientId));
        }
        if segment_id.is_nil() {
            return Err(ClientManagerError::SegmentState(SegmentStateError::NotFound(segment_id)));
        }
        let segment = match pool.segment(segment_id) {
            Some(segment) => segment,
            None => return Ok(None),
        };
        let expected = segment.spec().identity.owner;
        if expected != client_id {
            return Err(
                ClientManagerError::SegmentState(
                    SegmentStateError::OwnerMismatch {
                        segment: segment_id,
                        expected,
                        actual: client_id,
                    },
                ),
            );
        }
        match self.registry.active_session(client_id) {
            Err(error) => Err(ClientManagerError::Lifecycle(error)),
            Ok(session) => {
                proof {
                    assert(self@.registry.entries.contains_key(client_id.raw()));
                    assert(self@.slots.contains_key(client_id.raw()));
                }
                Ok(Some((session, segment)))
            },
        }
    }

    /// Stops new placement immediately and defers logical removal until the
    /// earliest requested deadline for this session/segment incarnation.
    pub fn schedule_graceful_unmount(
        &mut self,
        pool: &mut SegmentPool,
        client_id: ClientId,
        segment_id: SegmentId,
        deadline: ClientTick,
    ) -> (scheduled: Result<(), ClientManagerError>)
        requires
            old(self).wf(),
            old(pool).wf(),
        ensures
            final(self).wf(),
            final(pool).wf(),
            scheduled == mounts_of(old(self)@, old(pool)@).schedule_result(client_id, segment_id),
            mounts_of(final(self)@, final(pool)@) == mounts_of(
                old(self)@,
                old(pool)@,
            ).scheduled(client_id, segment_id, deadline),
    {
        let ghost before = mounts_of(self@, pool@);
        proof {
            pool.lemma_wf();
        }
        let (session, segment) = match self.mounted_segment(pool, client_id, segment_id) {
            Err(error) => return Err(error),
            Ok(None) => return Err(
                ClientManagerError::SegmentState(SegmentStateError::NotFound(segment_id)),
            ),
            Ok(Some(found)) => found,
        };
        match self.slot_facts(client_id, segment_id) {
            Some((current, true)) => {
                assert(current == session);
            },
            _ => return Err(
                ClientManagerError::SegmentState(SegmentStateError::NotFound(segment_id)),
            ),
        }
        let incarnation = segment.incarnation();
        let key = GracefulUnmountKey { session, segment: segment_id };
        proof {
            let i = before.pool.position(segment_id).unwrap();
            crate::segment::pool::lemma_position(before.pool, i);
            assert(incarnation == before.incarnation_of(segment_id));
        }
        if segment.stats().state == SegmentState::Accepting {
            let _ = pool.quiesce(client_id, segment_id);
        } else if !self.graceful_unmounts.contains(key, &incarnation) {
            return Err(ClientManagerError::SegmentUnavailable(segment_id));
        }
        self.graceful_unmounts.schedule(key, incarnation, deadline);
        Ok(())
    }

    /// Executes one claimed removal: whether it removed the segment. A removal
    /// of an earlier session or attachment removes nothing.
    pub fn complete_graceful_unmount(&mut self, pool: &mut SegmentPool, job: &GracefulUnmountJob) -> (completed: Result<
        bool,
        SegmentStateError,
    >)
        requires
            old(self).wf(),
            old(pool).wf(),
        ensures
            final(self).wf(),
            final(pool).wf(),
            completed == mounts_of(old(self)@, old(pool)@).complete_result(*job),
            mounts_of(final(self)@, final(pool)@) == mounts_of(
                old(self)@,
                old(pool)@,
            ).completed(*job),
    {
        let ghost before = mounts_of(self@, pool@);
        proof {
            pool.lemma_wf();
        }
        let client_id = job.key.session.client_id();
        let id = job.key.segment;
        match self.slot_facts(client_id, id) {
            Some((session, true)) => {
                if session != job.key.session {
                    return Ok(false);
                }
            },
            _ => return Ok(false),
        }
        let segment = match pool.segment(id) {
            Some(segment) => segment,
            None => return Ok(false),
        };
        proof {
            let i = before.pool.position(id).unwrap();
            crate::segment::pool::lemma_position(before.pool, i);
        }
        if !job.incarnation.matches(&segment) {
            return Ok(false);
        }
        if segment.stats().state == SegmentState::Accepting {
            return match pool.quiesce(client_id, id) {
                Err(error) => Err(error),
                Ok(()) => Err(SegmentStateError::StillAccepting(id)),
            };
        }
        match pool.remove(client_id, id) {
            Err(error) => Err(error),
            Ok(()) => {
                self.forget_segment(client_id, id);
                Ok(true)
            },
        }
    }

    /// Executes one bounded batch of due graceful removals. Unexpected segment
    /// transition failures stay scheduled for a short retry.
    pub fn run_graceful_unmount_step(&mut self, pool: &mut SegmentPool, now: ClientTick) -> (report: GracefulUnmountReport)
        requires
            old(self).wf(),
            old(pool).wf(),
        ensures
            final(self).wf(),
            final(pool).wf(),
            ({
                let round = mounts_of(old(self)@, old(pool)@).graceful_round(now);
                &&& mounts_of(final(self)@, final(pool)@) == round.mounts
                &&& report == round.report
            }),
    {
        let jobs = self.claim_graceful_unmounts(now);
        let cancelled: usize = self.graceful_unmounts.take_cancelled();
        self.execute_graceful_unmounts(pool, &jobs, cancelled, now)
    }

    /// Claims a batch of due graceful removals.
    pub fn claim_graceful_unmounts(&mut self, now: ClientTick) -> (jobs: Vec<GracefulUnmountJob>)
        requires
            old(self).wf(),
        ensures
            final(self).wf(),
            ({
                let walk = (ClaimWalk { queue: old(self)@.graceful, jobs: Seq::empty() }).claim(
                    now,
                    old(self)@.registry.config.cleanup_scan_budget as nat,
                );
                &&& jobs@ == walk.jobs
                &&& final(self)@ == (ClientsView { graceful: walk.queue, ..old(self)@ })
            }),
    {
        let budget: usize = self.registry.config().cleanup_scan_budget;
        self.graceful_unmounts.claim_due(now, budget)
    }

    /// Executes claimed removals.
    fn execute_graceful_unmounts(
        &mut self,
        pool: &mut SegmentPool,
        jobs: &Vec<GracefulUnmountJob>,
        cancelled: usize,
        now: ClientTick,
    ) -> (report: GracefulUnmountReport)
        requires
            old(self).wf(),
            old(pool).wf(),
        ensures
            final(self).wf(),
            final(pool).wf(),
            ({
                let round = (GracefulRound {
                    mounts: mounts_of(old(self)@, old(pool)@),
                    report: GracefulUnmountReport {
                        completed: 0,
                        stale_or_cancelled: cancelled,
                        retried: 0,
                    },
                }).run(jobs@, now);
                &&& mounts_of(final(self)@, final(pool)@) == round.mounts
                &&& report == round.report
            }),
    {
        let mut report = GracefulUnmountReport {
            completed: 0,
            stale_or_cancelled: cancelled,
            retried: 0,
        };
        let ghost start = GracefulRound { mounts: mounts_of(self@, pool@), report };
        let mut i: usize = 0;
        while i < jobs.len()
            invariant
                self.wf(),
                pool.wf(),
                i <= jobs@.len(),
                start.run(jobs@.take(i as int), now) == (GracefulRound {
                    mounts: mounts_of(self@, pool@),
                    report,
                }),
            decreases jobs@.len() - i,
        {
            let job = jobs[i];
            proof {
                assert(jobs@.take(i as int + 1).drop_last() =~= jobs@.take(i as int));
            }
            match self.complete_graceful_unmount(pool, &job) {
                Ok(true) => {
                    self.graceful_unmounts.finish(&job);
                    report.completed = report.completed.saturating_add(1);
                },
                Ok(false) => {
                    self.graceful_unmounts.finish(&job);
                    report.stale_or_cancelled = report.stale_or_cancelled.saturating_add(1);
                },
                Err(_) => {
                    let retry_at = now.saturating_add(GRACEFUL_UNMOUNT_RETRY_TICKS);
                    if self.graceful_unmounts.retry(job, retry_at) {
                        report.retried = report.retried.saturating_add(1);
                    } else {
                        report.stale_or_cancelled = report.stale_or_cancelled.saturating_add(1);
                    }
                },
            }
            i = i + 1;
        }
        assert(jobs@.take(i as int) =~= jobs@);
        report
    }

    /// When the next graceful removal falls due.
    pub fn next_graceful_unmount_deadline(&mut self) -> (deadline: Option<ClientTick>)
        requires
            old(self).wf(),
        ensures
            final(self).wf(),
            final(self)@ == (ClientsView {
                graceful: old(self)@.graceful.pruned(),
                ..old(self)@
            }),
            deadline == if old(self)@.graceful.pruned().deadlines.len() == 0 {
                None
            } else {
                Some(ClientTick { value: old(self)@.graceful.pruned().deadlines[0].at })
            },
    {
        self.graceful_unmounts.next_deadline()
    }
}

/// The ids of one registration more.
proof fn lemma_ids_pushed(specs: Seq<SegmentSpec>, spec: SegmentSpec)
    ensures
        ids_of(specs.push(spec)) == ids_of(specs).insert(spec.identity.id),
{
    let id = |spec: SegmentSpec| spec.identity.id;
    let before = specs.map_values(id);
    let after = specs.push(spec).map_values(id);
    assert(after =~= before.push(spec.identity.id));
    assert forall|other: SegmentId| after.to_set().contains(other) == before.to_set().insert(
        spec.identity.id,
    ).contains(other) by {
        if before.contains(other) {
            let i = choose|i: int| 0 <= i < before.len() && before[i] == other;
            assert(after[i] == other);
        }
        assert(after[before.len() as int] == spec.identity.id);
    }
    assert(after.to_set() =~= before.to_set().insert(spec.identity.id));
}

/// A walk that failed does not go on.
proof fn lemma_stopped_walk(walk: AttachWalk, start: PoolView, specs: Seq<SegmentSpec>, at: int)
    requires
        0 <= at <= specs.len(),
        walk.fault is Some,
        walk.reached(start, specs.take(at)),
    ensures
        walk.reached(start, specs.take(specs.len() as int)),
    decreases specs.len() - at,
{
    if at < specs.len() {
        assert(specs.take(at + 1).drop_last() =~= specs.take(at));
        let outcome = arbitrary::<Result<AttachOutcome, AttachError>>();
        assert(step_witness(walk, outcome));
        assert(walk.reached(start, specs.take(at + 1)));
        lemma_stopped_walk(walk, start, specs, at + 1);
    }
}


/// A segment that was attached is owned by whom its registration names.
proof fn lemma_attached_owner(
    before: PoolView,
    after: PoolView,
    spec: SegmentSpec,
    attached: Result<AttachOutcome, AttachError>,
    client: ClientId,
)
    requires
        before.wf(),
        after.wf(),
        before.attach_outcome(after, spec@, SegmentState::Quiesced, attached),
        attached is Ok,
        spec.identity.owner == client,
    ensures
        after.ownership_fault(client, spec.identity.id) is None,
        after.position(spec.identity.id) is Some,
{
    let id = spec.identity.id;
    match attached {
        Ok(AttachOutcome::AlreadyAttached(handle)) => {
            let i = before.position(id).unwrap();
            assert(0 <= i < before.segments.len() && before.segments[i].id() == id);
            assert(before.segments[i].spec@ == spec@);
            assert(after.segments == before.segments);
            crate::segment::pool::lemma_position(after, i);
        },
        Ok(AttachOutcome::Attached(handle)) => {
            let i = choose|i: int|
                {
                    &&& 0 <= i <= before.segments.len()
                    &&& #[trigger] after.segments[i].spec@ == spec@
                    &&& after.segments == before.segments.insert(i, after.segments[i])
                    &&& after.segments[i].incarnation == before.next_incarnation
                    &&& after.segments[i].state == SegmentState::Quiesced
                    &&& after.segments[i].space.is_fresh(before.config, spec@.region.size)
                };
            assert(after.segments[i].spec@.identity.owner == client);
            crate::segment::pool::lemma_position(after, i);
        },
        Err(_) => {},
    }
}

/// The sessions of cleanups.
pub open spec fn sessions_of(cleanups: Seq<ClientCleanup>) -> Seq<ClientSession> {
    cleanups.map_values(|cleanup: ClientCleanup| cleanup.session)
}

/// The clients of sessions.
pub open spec fn clients_of(sessions: Seq<ClientSession>) -> Seq<ClientId> {
    sessions.map_values(|session: ClientSession| session.client_id)
}

/// Whether a worker holds the cleanup of each of `sessions`, each once.
pub open spec fn claims_held(registry: RegistryView, sessions: Seq<ClientSession>) -> bool {
    &&& forall|i: int| #![trigger sessions[i]]
        0 <= i < sessions.len() ==> {
            &&& registry.has(sessions[i].client_id)
            &&& registry.entry(sessions[i].client_id).session == sessions[i]
            &&& registry.entry(sessions[i].client_id).claimable(CleanupClaimState::Running) is Some
        }
    &&& forall|i: int, j: int|
        0 <= i < j < sessions.len() ==> (#[trigger] sessions[i]).client_id != (
        #[trigger] sessions[j]).client_id
}

/// How far fencing sessions has come.
pub struct DrainWalk {
    pub registry: RegistryView,
    pub cleanups: Seq<ClientCleanup>,
    pub fault: Option<ClientLifecycleError>,
}

impl RegistryView {
    /// Sessions are fenced one after the other, up to the first that fails.
    pub open spec fn drained_all(self, sessions: Seq<ClientSession>, reason: CleanupReason) -> DrainWalk
        decreases sessions.len(),
    {
        if sessions.len() == 0 {
            DrainWalk { registry: self, cleanups: Seq::empty(), fault: None }
        } else {
            let before = self.drained_all(sessions.drop_last(), reason);
            if before.fault is Some {
                before
            } else {
                let session = sessions.last();
                DrainWalk {
                    registry: before.registry.drained(session, reason),
                    cleanups: match before.registry.drain_result(session, reason) {
                        Ok(Some(cleanup)) => before.cleanups.push(cleanup),
                        _ => before.cleanups,
                    },
                    fault: match before.registry.drain_result(session, reason) {
                        Ok(_) => None,
                        Err(error) => Some(error),
                    },
                }
            }
        }
    }

    /// The registry after a worker gave cleanups back.
    pub open spec fn cleanups_released(self, sessions: Seq<ClientSession>) -> RegistryView
        decreases sessions.len(),
    {
        if sessions.len() == 0 {
            self
        } else {
            self.cleanups_released(sessions.drop_last()).cleanup_released(sessions.last())
        }
    }

    /// The registry after cleanups were completed.
    pub open spec fn finished_all(self, sessions: Seq<ClientSession>) -> RegistryView
        decreases sessions.len(),
    {
        if sessions.len() == 0 {
            self
        } else {
            self.finished_all(sessions.drop_last()).finished(sessions.last())
        }
    }
}

impl GracefulView {
    /// The queue after the removals of sessions were called off.
    pub open spec fn sessions_cancelled(self, sessions: Seq<ClientSession>) -> GracefulView
        decreases sessions.len(),
    {
        if sessions.len() == 0 {
            self
        } else {
            self.sessions_cancelled(sessions.drop_last()).session_cancelled(sessions.last())
        }
    }
}

impl ClientsView {
    /// The clients after sessions were cleaned up: nothing of them is mounted
    /// or put off, and they are gone from the registry.
    pub open spec fn cleaned(self, sessions: Seq<ClientSession>) -> ClientsView {
        ClientsView {
            registry: self.registry.finished_all(sessions),
            slots: self.slots.remove_keys(raws_of(sessions)),
            graceful: self.graceful.sessions_cancelled(sessions),
            ..self
        }
    }
}

/// The numbers of the clients of sessions.
pub open spec fn raws_of(sessions: Seq<ClientSession>) -> Set<u128> {
    sessions.map_values(|session: ClientSession| session.client_id.raw()).to_set()
}

impl ManagerView {
    /// The objects after the pending writes of sessions were revoked, and how
    /// many there were.
    pub open spec fn sessions_revoked(
        self,
        revoker: PendingWriteRevoker,
        pool: PoolView,
        sessions: Seq<ClientSession>,
        now: CatalogTick,
    ) -> (ManagerView, nat) {
        if revoker.catalog_id != self.catalog.catalog_id {
            (self, 0)
        } else {
            let after = self.catalog.revoked(pool, owners_of(sessions), now);
            (ManagerView { catalog: after.catalog, ..self }, after.revoked)
        }
    }
}

impl Mounts {
    /// Whether `after` and `report` are what cleaning fenced sessions up comes
    /// to: their pending writes are revoked and their segments invalidated.
    pub open spec fn cleaned_up(
        self,
        after: Mounts,
        objects: ManagerView,
        objects_after: ManagerView,
        sessions: Seq<ClientSession>,
        now: CatalogTick,
        report: ClientCleanupReport,
    ) -> bool {
        let revoked = objects.sessions_revoked(self.clients.revoker, self.pool, sessions, now);
        &&& after.clients == self.clients.cleaned(sessions)
        &&& after.pool == self.pool.invalidated(clients_of(sessions))
        &&& objects_after == revoked.0
        &&& report.completed_sessions == sessions.len()
        &&& report.revoked_pending_writes == revoked.1
        &&& report.invalidated_segments == self.pool.segments.len() - self.pool.without_owners(
            clients_of(sessions),
        ).len()
    }
}

/// Fencing further sessions keeps the claims that a worker holds, and leaves
/// the sessions as they are.
proof fn lemma_drained_claims(before: DrainWalk, session: ClientSession, reason: CleanupReason)
    requires
        before.registry.wf(),
        claims_held(before.registry, sessions_of(before.cleanups)),
        before.registry.drain_result(session, reason) is Ok,
    ensures
        match before.registry.drain_result(session, reason) {
            Ok(Some(cleanup)) => claims_held(
                before.registry.drained(session, reason),
                sessions_of(before.cleanups.push(cleanup)),
            ),
            _ => true,
        },
{
    if let Ok(Some(cleanup)) = before.registry.drain_result(session, reason) {
        let entry = before.registry.entry(session.client_id);
        let held = sessions_of(before.cleanups);
        assert(before.registry.entries.contains_key(session.client_id.raw()));
        assert(sessions_of(before.cleanups.push(cleanup)) =~= held.push(session));
        assert forall|i: int| 0 <= i < held.len() implies held[i].client_id.raw()
            != session.client_id.raw() by {
            assert(before.registry.entry(held[i].client_id).claimable(
                CleanupClaimState::Running,
            ) is Some);
        }
    }
}

/// Whether a maintenance round that started at a registry is in order: it
/// replaced no session and made none active, and it holds the claims that it
/// took.
pub open spec fn round_in_order(start: RegistryView, round: ClaimRound) -> bool {
    &&& forall|key: u128| #[trigger]
        round.registry.entries.contains_key(key) == start.entries.contains_key(key)
    &&& forall|key: u128| #[trigger]
        round.registry.entries.contains_key(key) ==> {
            &&& round.registry.entries[key].session == start.entries[key].session
            &&& round.registry.entries[key].session.client_id.raw() == key
            &&& round.registry.entries[key].phase == ClientPhase::Active
                ==> start.entries[key].phase == ClientPhase::Active
        }
    &&& claims_held(round.registry, sessions_of(round.cleanups))
}

/// Claiming one cleanup that no worker holds keeps a round in order.
proof fn lemma_claim_kept(start: RegistryView, before: ClaimRound, after: ClaimRound, client: ClientId)
    requires
        round_in_order(start, before),
        before.registry.has(client),
        before.registry.entry(client).claimable(CleanupClaimState::Running) is None,
        after.registry.entries == before.registry.entries.insert(
            client.raw(),
            after.registry.entry(client),
        ),
        after.registry.entry(client).session == before.registry.entry(client).session,
        after.registry.entry(client).claimable(CleanupClaimState::Running) is Some,
        after.cleanups.len() == before.cleanups.len() + 1,
        after.cleanups =~= before.cleanups.push(after.cleanups.last()),
        after.cleanups.last().session == before.registry.entry(client).session,
    ensures
        round_in_order(start, after),
{
    let held = sessions_of(before.cleanups);
    let session = before.registry.entry(client).session;
    assert(before.registry.entries.contains_key(client.raw()));
    assert(session.client_id.raw() == client.raw());
    assert(sessions_of(after.cleanups) =~= held.push(session));
    assert forall|i: int| 0 <= i < held.len() implies held[i].client_id.raw() != client.raw() by {
        assert(before.registry.entry(held[i].client_id).claimable(
            CleanupClaimState::Running,
        ) is Some);
    }
    assert forall|key: u128| #[trigger]
        after.registry.entries.contains_key(key) == start.entries.contains_key(key) by {
        assert(before.registry.entries.contains_key(key) == start.entries.contains_key(key));
    }
    assert forall|key: u128| #[trigger] after.registry.entries.contains_key(key) implies {
        &&& after.registry.entries[key].session == start.entries[key].session
        &&& after.registry.entries[key].session.client_id.raw() == key
        &&& after.registry.entries[key].phase == ClientPhase::Active ==> start.entries[key].phase
            == ClientPhase::Active
    } by {
        assert(before.registry.entries.contains_key(key));
    }
}

/// Cleanups taken up again keep a round in order.
proof fn lemma_take_ready_in_order(start: RegistryView, round: ClaimRound, budget: nat)
    requires
        round_in_order(start, round),
    ensures
        round_in_order(start, round.take_ready(budget)),
    decreases budget - round.processed,
{
    if round.processed < budget && round.registry.ready.len() > 0 {
        let session = round.registry.ready[0];
        let next = round.ready_step();
        if round.registry.has(session.client_id) && round.registry.entry(session.client_id).session
            == session && round.registry.entry(session.client_id).claimable(
            CleanupClaimState::Queued,
        ) is Some {
            lemma_claim_kept(start, round, next, session.client_id);
        }
        lemma_take_ready_in_order(start, next, budget);
    }
}

/// Deadlines worked off keep a round in order.
proof fn lemma_take_due_in_order(start: RegistryView, round: ClaimRound, now: ClientTick, budget: nat)
    requires
        round_in_order(start, round),
    ensures
        round_in_order(start, round.take_due(now, budget)),
    decreases budget - round.processed,
{
    if round.processed < budget && round.registry.deadlines.len() > 0
        && round.registry.deadlines[0].at <= now.value {
        let record = round.registry.deadlines[0];
        let next = round.due_step(now);
        let entry = round.registry.entry(record.client);
        if round.registry.has(record.client) {
            assert(round.registry.entries.contains_key(record.client.raw()));
            if entry.session.generation == record.generation && next.cleanups.len()
                > round.cleanups.len() {
                lemma_claim_kept(start, round, next, record.client);
            }
        }
        lemma_take_due_in_order(start, next, now, budget);
    }
}

/// What holds of a registry from which some of the claimed sessions are gone.
proof fn lemma_finished_claims(registry: RegistryView, sessions: Seq<ClientSession>, done: int)
    requires
        claims_held(registry, sessions),
        0 <= done < sessions.len(),
        registry.wf(),
    ensures
        ({
            let now = registry.finished_all(sessions.take(done));
            &&& now.has(sessions[done].client_id)
            &&& now.entry(sessions[done].client_id) == registry.entry(sessions[done].client_id)
            &&& now.finish_result(sessions[done]) is Ok
            &&& sessions.take(done + 1).drop_last() == sessions.take(done)
        }),
{
    lemma_others_stay(registry, sessions, done, done);
    assert(sessions.take(done + 1).drop_last() =~= sessions.take(done));
}

pub proof fn lemma_others_stay(
    registry: RegistryView,
    sessions: Seq<ClientSession>,
    done: int,
    other: int,
)
    requires
        claims_held(registry, sessions),
        0 <= done <= other < sessions.len(),
    ensures
        ({
            let now = registry.finished_all(sessions.take(done));
            &&& now.has(sessions[other].client_id)
            &&& now.entry(sessions[other].client_id) == registry.entry(sessions[other].client_id)
        }),
    decreases done,
{
    if done > 0 {
        lemma_others_stay(registry, sessions, done - 1, other);
        assert(sessions.take(done).drop_last() =~= sessions.take(done - 1));
        let last = sessions[done - 1];
        assert(sessions.take(done).last() == last);
        assert(last.client_id != sessions[other].client_id);
        law_client_id_round_trip(last.client_id, sessions[other].client_id, 0);
    }
}

/// The numbers of one session more.
proof fn lemma_raws_pushed(sessions: Seq<ClientSession>, session: ClientSession)
    ensures
        raws_of(sessions.push(session)) == raws_of(sessions).insert(session.client_id.raw()),
{
    let number = |session: ClientSession| session.client_id.raw();
    let before = sessions.map_values(number);
    let after = sessions.push(session).map_values(number);
    assert(after =~= before.push(session.client_id.raw()));
    assert forall|other: u128| after.to_set().contains(other) == before.to_set().insert(
        session.client_id.raw(),
    ).contains(other) by {
        if before.contains(other) {
            let i = choose|i: int| 0 <= i < before.len() && before[i] == other;
            assert(after[i] == other);
        }
        assert(after[before.len() as int] == session.client_id.raw());
    }
    assert(after.to_set() =~= before.to_set().insert(session.client_id.raw()));
}

impl ClientManager {
    /// Fences the requested sessions and performs one batched logical cleanup.
    /// Where a session cannot be fenced, the cleanups of those before it are
    /// left to a maintenance round.
    pub fn drain_sessions(
        &mut self,
        pool: &mut SegmentPool,
        objects: &mut ObjectManager,
        sessions: &Vec<ClientSession>,
        reason: CleanupReason,
        now: CatalogTick,
    ) -> (drained: Result<ClientCleanupReport, ClientManagerError>)
        requires
            old(self).wf(),
            old(pool).wf(),
            old(objects).wf(),
        ensures
            final(self).wf(),
            final(pool).wf(),
            final(objects).wf(),
            ({
                let walk = old(self)@.registry.drained_all(sessions@, reason);
                let claimed = sessions_of(walk.cleanups);
                let fenced = ClientsView { registry: walk.registry, ..old(self)@ };
                match walk.fault {
                    Some(error) => {
                        &&& drained == Err::<ClientCleanupReport, ClientManagerError>(
                            ClientManagerError::Lifecycle(error),
                        )
                        &&& final(self)@ == (ClientsView {
                            registry: walk.registry.cleanups_released(claimed),
                            ..old(self)@
                        })
                        &&& final(pool)@ == old(pool)@
                        &&& final(objects)@ == old(objects)@
                    },
                    None => match drained {
                        Ok(report) => mounts_of(fenced, old(pool)@).cleaned_up(
                            mounts_of(final(self)@, final(pool)@),
                            old(objects)@,
                            final(objects)@,
                            claimed,
                            now,
                            report,
                        ),
                        Err(_) => false,
                    },
                }
            }),
    {
        let ghost before = self@;
        let mut cleanups: Vec<ClientCleanup> = Vec::new();
        let mut i: usize = 0;
        assert(sessions_of(cleanups@) =~= Seq::empty());
        assert(cleanups@ =~= Seq::empty());
        while i < sessions.len()
            invariant
                i <= sessions@.len(),
                self.wf(),
                before == old(self)@,
                before.registry.drained_all(sessions@.take(i as int), reason) == (DrainWalk {
                    registry: self@.registry,
                    cleanups: cleanups@,
                    fault: None,
                }),
                self@ == (ClientsView { registry: self@.registry, ..before }),
                claims_held(self@.registry, sessions_of(cleanups@)),
                *pool == *old(pool),
                *objects == *old(objects),
                old(pool).wf(),
                old(objects).wf(),
            decreases sessions@.len() - i,
        {
            let session = sessions[i];
            let ghost current = self@.registry;
            let ghost walk = DrainWalk { registry: current, cleanups: cleanups@, fault: None };
            proof {
                self.registry.lemma_wf();
                assert(sessions@.take(i as int + 1).drop_last() =~= sessions@.take(i as int));
            }
            let drained = self.registry.begin_drain(session, reason);
            proof {
                if current.has(session.client_id) {
                    assert(current.entries.contains_key(session.client_id.raw()));
                }
                lemma_agree_kept(current, self@.registry, self@.slots);
                if drained is Ok {
                    lemma_drained_claims(walk, session, reason);
                }
            }
            match drained {
                Ok(Some(cleanup)) => {
                    cleanups.push(cleanup);
                },
                Ok(None) => {},
                Err(error) => {
                    proof {
                        lemma_drain_stopped(before.registry, sessions@, reason, i as int + 1);
                        assert(sessions@.take(sessions@.len() as int) =~= sessions@);
                    }
                    self.give_back(&cleanups);
                    return Err(ClientManagerError::Lifecycle(error));
                },
            }
            i = i + 1;
        }
        assert(sessions@.take(i as int) =~= sessions@);
        Ok(self.cleanup_batch(pool, objects, cleanups, now))
    }

    /// Gives claimed cleanups back, so that another round takes them up.
    fn give_back(&mut self, cleanups: &Vec<ClientCleanup>)
        requires
            old(self).wf(),
        ensures
            final(self).wf(),
            final(self)@ == (ClientsView {
                registry: old(self)@.registry.cleanups_released(sessions_of(cleanups@)),
                ..old(self)@
            }),
    {
        let ghost before = self@;
        let ghost all = sessions_of(cleanups@);
        let mut i: usize = 0;
        while i < cleanups.len()
            invariant
                i <= cleanups@.len(),
                self.wf(),
                all == sessions_of(cleanups@),
                self@ == (ClientsView {
                    registry: before.registry.cleanups_released(all.take(i as int)),
                    ..before
                }),
            decreases cleanups@.len() - i,
        {
            let ghost current = self@.registry;
            let session = cleanups[i].session();
            proof {
                self.registry.lemma_wf();
                assert(all.take(i as int + 1).drop_last() =~= all.take(i as int));
            }
            self.registry.release_cleanup(session);
            proof {
                if current.has(session.client_id) {
                    assert(current.entries.contains_key(session.client_id.raw()));
                }
                lemma_agree_kept(current, self@.registry, self@.slots);
            }
            i = i + 1;
        }
        assert(all.take(i as int) =~= all);
    }

    /// Claims one bounded batch of due sessions and completes their logical
    /// resource cleanup.
    pub fn run_cleanup_step(
        &mut self,
        pool: &mut SegmentPool,
        objects: &mut ObjectManager,
        client_now: ClientTick,
        catalog_now: CatalogTick,
    ) -> (report: ClientCleanupReport)
        requires
            old(self).wf(),
            old(pool).wf(),
            old(objects).wf(),
        ensures
            final(self).wf(),
            final(pool).wf(),
            final(objects).wf(),
            ({
                let round = old(self)@.registry.claim_round(
                    client_now,
                    old(self)@.registry.config.cleanup_scan_budget,
                );
                mounts_of(
                    ClientsView { registry: round.registry, ..old(self)@ },
                    old(pool)@,
                ).cleaned_up(
                    mounts_of(final(self)@, final(pool)@),
                    old(objects)@,
                    final(objects)@,
                    sessions_of(round.cleanups),
                    catalog_now,
                    report,
                )
            }),
    {
        let ghost before = self@.registry;
        let budget: usize = self.registry.config().cleanup_scan_budget;
        proof {
            self.registry.lemma_wf();
        }
        let cleanups = self.registry.claim_due_cleanups(client_now, budget);
        proof {
            let start = ClaimRound { registry: before, cleanups: Seq::empty(), processed: 0 };
            assert(round_in_order(before, start));
            lemma_take_ready_in_order(before, start, budget as nat);
            lemma_take_due_in_order(
                before,
                start.take_ready(budget as nat),
                client_now,
                budget as nat,
            );
            lemma_agree_kept(before, self@.registry, self@.slots);
        }
        self.cleanup_batch(pool, objects, cleanups, catalog_now)
    }

    /// Executes generation-fenced cleanup work with one batched segment-pool
    /// invalidation.
    fn cleanup_batch(
        &mut self,
        pool: &mut SegmentPool,
        objects: &mut ObjectManager,
        cleanups: Vec<ClientCleanup>,
        now: CatalogTick,
    ) -> (report: ClientCleanupReport)
        requires
            old(self).wf(),
            old(pool).wf(),
            old(objects).wf(),
            claims_held(old(self)@.registry, sessions_of(cleanups@)),
        ensures
            final(self).wf(),
            final(pool).wf(),
            final(objects).wf(),
            mounts_of(old(self)@, old(pool)@).cleaned_up(
                mounts_of(final(self)@, final(pool)@),
                old(objects)@,
                final(objects)@,
                sessions_of(cleanups@),
                now,
                report,
            ),
    {
        let ghost before = self@;
        let ghost all = sessions_of(cleanups@);
        let mut sessions: Vec<ClientSession> = Vec::new();
        let mut clients: Vec<ClientId> = Vec::new();
        let mut i: usize = 0;
        proof {
            assert(raws_of(all.take(0)) =~= Set::empty());
            assert(before.slots.remove_keys(raws_of(all.take(0))) =~= before.slots);
            assert(clients_of(all.take(0)) =~= Seq::empty());
        }
        while i < cleanups.len()
            invariant
                i <= cleanups@.len(),
                self.wf(),
                all == sessions_of(cleanups@),
                claims_held(before.registry, all),
                sessions@ == all.take(i as int),
                clients@ == clients_of(all.take(i as int)),
                self@ == (ClientsView {
                    slots: before.slots.remove_keys(raws_of(all.take(i as int))),
                    graceful: before.graceful.sessions_cancelled(all.take(i as int)),
                    ..before
                }),
            decreases cleanups@.len() - i,
        {
            let session = cleanups[i].session();
            let ghost held = self@.slots;
            proof {
                assert(all[i as int] == session);
                assert(all.take(i as int + 1).drop_last() =~= all.take(i as int));
                assert(all.take(i as int + 1) =~= all.take(i as int).push(session));
                lemma_raws_pushed(all.take(i as int), session);
                assert(held.remove(session.client_id.raw()) =~= before.slots.remove_keys(
                    raws_of(all.take(i as int + 1)),
                ));
                assert(clients_of(all.take(i as int + 1)) =~= clients_of(all.take(i as int)).push(
                    session.client_id,
                ));
            }
            self.graceful_unmounts.cancel_session(session);
            let _ = self.take_slot(session.client_id());
            sessions.push(session);
            clients.push(session.client_id());
            proof {
                assert(self@.registry.entry(session.client_id).phase != ClientPhase::Active);
                assert forall|key: u128| #[trigger] self@.slots.contains_key(key) implies
                    self@.registry.entries.contains_key(key) && self@.registry.entries[key].session
                    == self@.slots[key].session by {
                    assert(held.contains_key(key));
                }
                assert forall|key: u128| #[trigger]
                    self@.registry.entries.contains_key(key) && self@.registry.entries[key].phase
                        == ClientPhase::Active implies self@.slots.contains_key(key) by {
                    assert(held.contains_key(key));
                }
            }
            i = i + 1;
        }
        assert(all.take(i as int) =~= all);
        let revoker = self.pending_write_revoker;
        let revoked_pending_writes: usize = revoker.revoke_sessions(objects, pool, &sessions, now);
        let invalidated_segments: usize = pool.invalidate_owners(clients.as_slice());
        self.finish_all(&sessions);
        ClientCleanupReport {
            completed_sessions: sessions.len(),
            revoked_pending_writes,
            invalidated_segments,
        }
    }

    /// Completes the cleanups of sessions that have nothing mounted.
    fn finish_all(&mut self, sessions: &Vec<ClientSession>)
        requires
            old(self).wf(),
            claims_held(old(self)@.registry, sessions@),
            forall|key: u128| #[trigger]
                old(self)@.slots.contains_key(key) ==> !raws_of(sessions@).contains(key),
        ensures
            final(self).wf(),
            final(self)@ == (ClientsView {
                registry: old(self)@.registry.finished_all(sessions@),
                ..old(self)@
            }),
    {
        let ghost before = self@;
        proof {
            self.registry.lemma_wf();
        }
        let mut i: usize = 0;
        while i < sessions.len()
            invariant
                i <= sessions@.len(),
                self.wf(),
                before.registry.wf(),
                claims_held(before.registry, sessions@),
                forall|key: u128| #[trigger]
                    before.slots.contains_key(key) ==> !raws_of(sessions@).contains(key),
                self@ == (ClientsView {
                    registry: before.registry.finished_all(sessions@.take(i as int)),
                    ..before
                }),
            decreases sessions@.len() - i,
        {
            let session = sessions[i];
            let ghost current = self@.registry;
            proof {
                lemma_finished_claims(before.registry, sessions@, i as int);
            }
            let _ = self.registry.finish_cleanup(session);
            proof {
                let key = session.client_id.raw();
                let number = |session: ClientSession| session.client_id.raw();
                assert(sessions@.map_values(number)[i as int] == key);
                assert(raws_of(sessions@).contains(key));
                assert forall|other: u128| #[trigger] self@.slots.contains_key(other) implies
                    self@.registry.entries.contains_key(other)
                    && self@.registry.entries[other].session == self@.slots[other].session by {
                    assert(current.entries.contains_key(other));
                    assert(other != key);
                }
                assert forall|other: u128| #[trigger]
                    self@.registry.entries.contains_key(other)
                        && self@.registry.entries[other].phase
                        == ClientPhase::Active implies self@.slots.contains_key(other) by {
                    assert(current.entries.contains_key(other));
                }
            }
            i = i + 1;
        }
        assert(sessions@.take(i as int) =~= sessions@);
    }
}

/// Fencing that failed does not go on.
proof fn lemma_drain_stopped(
    registry: RegistryView,
    sessions: Seq<ClientSession>,
    reason: CleanupReason,
    at: int,
)
    requires
        0 <= at <= sessions.len(),
        registry.drained_all(sessions.take(at), reason).fault is Some,
    ensures
        registry.drained_all(sessions.take(sessions.len() as int), reason)
            == registry.drained_all(sessions.take(at), reason),
    decreases sessions.len() - at,
{
    if at < sessions.len() {
        assert(sessions.take(at + 1).drop_last() =~= sessions.take(at));
        lemma_drain_stopped(registry, sessions, reason, at + 1);
    }
}

} // verus!
