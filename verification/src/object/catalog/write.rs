//! Per-key write transaction protocol.
//!
//! A slot has two orthogonal pieces of state: the committed version and at most
//! one transaction. Insert keeps the slot without a committed version until
//! commit. Upsert leaves the previous committed version readable and stages a
//! fresh allocation beside it.

use super::super::config::{ObjectPinRequest, ResolvedObjectPinRequest};
use super::super::content::ObjectContent;
use super::super::error::{AbortError, BeginError, CommitError, LookupError, StageError};
use super::super::identity::{ObjectIdentity, ObjectLookup};
use super::super::reclamation::CatalogTick;
use super::super::replica::{all_live, has_live, replica_bytes, ReplicaLease, ReplicaSet};
use super::super::tenant::quota::{
    reservation_released, Accounts, ChargePhase, ChargeStep, QuotaReservationGuard,
    TenantQuotaCharge,
};
use super::super::write::{ObjectCommit, TransactionId, VersionId, WriteAdmission, WriteMode, WriteOwner};
use super::access::AccessControl;
use super::state::{
    ActiveTransaction, CatalogView, CommittedVersion, ObjectSlot, TransactionPhase, VersionView,
};
use super::upkeep::{
    lemma_abandoned, lemma_begun_in, lemma_begun_new, lemma_claim_dropped, lemma_published,
    lemma_same_core, lemma_staged, lemma_version_touched,
};
use super::{ObjectCatalog, ObjectVersion};
use crate::client::lifecycle::{ClientRegistry, RegistryView};
use crate::segment::pool::{PoolView, SegmentPool};
use std::sync::Arc;
use vstd::prelude::*;

verus! {

/// A write that holds its slot and has no replicas yet.
///
/// A claim is either staged or dropped with [`ObjectCatalog::drop_claim`].
#[derive(Debug)]
pub struct WriteClaim {
    pub catalog_id: u64,
    pub slot: u64,
    pub identity: Arc<ObjectIdentity>,
    pub id: TransactionId,
    pub admission: WriteAdmission,
    pub started_at: CatalogTick,
}

/// A write whose replicas are staged. The token holds on to the staged version
/// until it is given back with [`ObjectCatalog::release_transaction`].
#[derive(Debug)]
pub struct WriteTransaction {
    pub catalog_id: u64,
    pub slot: u64,
    pub id: TransactionId,
    pub identity: Arc<ObjectIdentity>,
    pub content: ObjectContent,
    pub owner: WriteOwner,
}

/// A committed version that cannot be released as long as the handle is out. It
/// is given back with [`ObjectCatalog::release_handle`].
#[derive(Debug)]
pub struct ObjectHandle {
    pub catalog_id: u64,
    pub slot: u64,
    pub origin: TransactionId,
    pub version_id: VersionId,
    pub identity: Arc<ObjectIdentity>,
    pub content: ObjectContent,
    pub commit: ObjectCommit,
    pub owner: WriteOwner,
    pub hard_pinned: bool,
}

/// A write that was not staged, with the replicas that were meant for it.
#[derive(Debug)]
pub struct StageFailure {
    pub error: StageError,
    pub replicas: ReplicaSet,
}

/// The write or the version under a name.
#[derive(Debug)]
pub enum WriteResolution {
    Active(WriteTransaction),
    Committed(ObjectHandle),
}

/// What a commit comes to.
pub enum CommitPath {
    Fails(CommitError),
    /// The transaction is already committed with the same metadata.
    Repeats,
    Publishes,
}

/// The first replica, from a position on, whose segment is gone.
pub open spec fn first_dead(replicas: Seq<ReplicaLease>, pool: PoolView, from: int) -> Option<int>
    decreases replicas.len() - from,
{
    if from < 0 || from >= replicas.len() {
        None
    } else if !replicas[from].lives(pool) {
        Some(from)
    } else {
        first_dead(replicas, pool, from + 1)
    }
}

/// The first replica, from a position on, that is smaller than required.
pub open spec fn first_small(replicas: Seq<ReplicaLease>, bytes: u64, from: int) -> Option<int>
    decreases replicas.len() - from,
{
    if from < 0 || from >= replicas.len() {
        None
    } else if replicas[from].reservation.allocation.requested_bytes < bytes {
        Some(from)
    } else {
        first_small(replicas, bytes, from + 1)
    }
}

/// Why replicas cannot hold an object.
pub open spec fn replica_fault(replicas: Seq<ReplicaLease>, pool: PoolView, bytes: u64) -> Option<
    StageError,
> {
    if replicas.len() == 0 {
        Some(StageError::NoReplicas)
    } else {
        match first_dead(replicas, pool, 0) {
            Some(i) => Some(StageError::ReplicaInvalidated { replica: replicas[i].id }),
            None => match first_small(replicas, bytes, 0) {
                Some(i) => Some(
                    StageError::ReplicaTooSmall {
                        replica: replicas[i].id,
                        required_bytes: bytes,
                        capacity_bytes: replicas[i].reservation.allocation.requested_bytes,
                    },
                ),
                None => None,
            },
        }
    }
}

/// The charge that a quota reservation turns into.
pub open spec fn charge_of(accounting: Option<QuotaReservationGuard>) -> Option<TenantQuotaCharge> {
    match accounting {
        Some(guard) => Some(
            TenantQuotaCharge { tenant: guard.tenant, phase: ChargePhase::Reserved },
        ),
        None => None,
    }
}

/// The accounts after a quota reservation was given back.
pub open spec fn unreserved(accounts: Accounts, accounting: Option<QuotaReservationGuard>) -> Accounts {
    match accounting {
        Some(guard) => reservation_released(accounts, guard.tenant, guard.class, guard.bytes),
        None => accounts,
    }
}

impl CatalogView {
    /// Why a claim cannot be staged.
    pub open spec fn stage_fault(
        self,
        pool: PoolView,
        sessions: RegistryView,
        claim: WriteClaim,
        content: ObjectContent,
        replicas: Seq<ReplicaLease>,
    ) -> Option<StageError> {
        if !claim.admission.is_admitted(sessions) {
            Some(StageError::OwnerInactive)
        } else if content.logical_bytes == 0 {
            Some(StageError::ZeroSize)
        } else if replica_fault(replicas, pool, content.logical_bytes) is Some {
            replica_fault(replicas, pool, content.logical_bytes)
        } else if claim.catalog_id != self.catalog_id {
            Some(StageError::CatalogDropped)
        } else if !self.claim_holds(claim.slot, claim.id.value)
            || self.slots[claim.slot].active.unwrap().owner != claim.admission.owner {
            Some(StageError::ClaimLost)
        } else {
            None
        }
    }

    /// The version that staging adds.
    pub open spec fn staged_version(
        self,
        claim: WriteClaim,
        content: ObjectContent,
        replicas: Seq<ReplicaLease>,
        accounting: Option<QuotaReservationGuard>,
    ) -> VersionView {
        VersionView {
            owner: claim.admission.owner,
            identity: self.slots[claim.slot].identity,
            content,
            replicas,
            reserved_bytes: replica_bytes(replicas),
            accounting: charge_of(accounting),
            committed: None,
            pins: 1,
        }
    }

    /// The catalog after a claim could not be staged.
    pub open spec fn stage_failed(
        self,
        pool: PoolView,
        claim: WriteClaim,
        accounting: Option<QuotaReservationGuard>,
    ) -> CatalogView {
        let next = CatalogView { accounts: unreserved(self.accounts, accounting), ..self };
        if claim.catalog_id == self.catalog_id {
            next.claim_dropped(pool, claim.slot, claim.id.value, claim.started_at)
        } else {
            next
        }
    }

    /// What a commit comes to.
    pub open spec fn commit_path(
        self,
        pool: PoolView,
        catalog_id: u64,
        slot: u64,
        id: u64,
        commit: ObjectCommit,
    ) -> CommitPath {
        if catalog_id != self.catalog_id {
            CommitPath::Fails(CommitError::ForeignCatalog)
        } else if !self.slots.contains_key(slot) {
            CommitPath::Fails(CommitError::TransactionGone)
        } else {
            match self.slots[slot].active {
                None => if self.slots[slot].committed != Some(id) {
                    CommitPath::Fails(CommitError::TransactionGone)
                } else if self.current(slot).committed.unwrap().commit == commit {
                    CommitPath::Repeats
                } else {
                    CommitPath::Fails(CommitError::CommitConflict)
                },
                Some(active) => if active.id != id {
                    CommitPath::Fails(CommitError::TransactionGone)
                } else if active.phase == TransactionPhase::Claimed {
                    CommitPath::Fails(CommitError::NotStaged)
                } else if !all_live(self.versions[(slot, id)].replicas, pool) {
                    CommitPath::Fails(CommitError::ReplicasInvalidated)
                } else {
                    CommitPath::Publishes
                },
            }
        }
    }

    /// The catalog after a commit.
    pub open spec fn after_commit(
        self,
        pool: PoolView,
        catalog_id: u64,
        slot: u64,
        id: u64,
        commit: ObjectCommit,
        now: CatalogTick,
    ) -> CatalogView {
        match self.commit_path(pool, catalog_id, slot, id, commit) {
            CommitPath::Fails(_) => self,
            CommitPath::Repeats => self.with_version(
                slot,
                id,
                self.versions[(slot, id)].pinned(),
            ),
            CommitPath::Publishes => self.published(slot, commit, now),
        }
    }

    /// What an abort comes to.
    pub open spec fn abort_result(self, catalog_id: u64, slot: u64, id: u64) -> Result<
        (),
        AbortError,
    > {
        if catalog_id != self.catalog_id {
            Err(AbortError::ForeignCatalog)
        } else if !self.slots.contains_key(slot) {
            Err(AbortError::TransactionGone)
        } else {
            match self.slots[slot].active {
                None => if self.slots[slot].committed == Some(id) {
                    Err(AbortError::AlreadyCommitted)
                } else {
                    Err(AbortError::TransactionGone)
                },
                Some(active) => if active.id != id || active.phase == TransactionPhase::Claimed {
                    Err(AbortError::TransactionGone)
                } else {
                    Ok(())
                },
            }
        }
    }

    /// What is under a name: a staged transaction, a committed version, or why
    /// there is neither.
    pub open spec fn resolve_result(self, name: (u64, Seq<char>)) -> Result<
        (u64, u64, bool),
        LookupError,
    > {
        match self.find(name) {
            None => Err(LookupError::NotFound),
            Some(slot) => match self.slots[slot].active {
                Some(active) => if active.phase == TransactionPhase::Claimed {
                    Err(LookupError::NotReady)
                } else {
                    Ok((slot, active.id, true))
                },
                None => match self.slots[slot].committed {
                    Some(id) => Ok((slot, id, false)),
                    None => Err(LookupError::NotFound),
                },
            },
        }
    }

    /// Whether a token stands for the transaction of a version.
    pub open spec fn is_transaction(
        self,
        slot: u64,
        id: u64,
        transaction: WriteTransaction,
    ) -> bool {
        &&& transaction.catalog_id == self.catalog_id
        &&& transaction.slot == slot
        &&& transaction.id.value == id
        &&& transaction.identity == self.versions[(slot, id)].identity
        &&& transaction.content == self.versions[(slot, id)].content
        &&& transaction.owner == self.versions[(slot, id)].owner
    }

    /// Whether a handle stands for a committed version.
    pub open spec fn is_handle(self, slot: u64, id: u64, handle: ObjectHandle) -> bool {
        let version = self.versions[(slot, id)];
        &&& handle.catalog_id == self.catalog_id
        &&& handle.slot == slot
        &&& handle.origin.value == id
        &&& handle.version_id.value == version.committed.unwrap().id
        &&& handle.identity == version.identity
        &&& handle.content == version.content
        &&& handle.commit == version.committed.unwrap().commit
        &&& handle.owner == version.owner
        &&& handle.hard_pinned == version.access().hard_pinned
    }

    /// The catalog after a token of a version was given back.
    pub open spec fn version_released(self, catalog_id: u64, slot: u64, id: u64) -> CatalogView {
        if catalog_id == self.catalog_id && self.versions.contains_key((slot, id)) {
            self.with_version(slot, id, self.versions[(slot, id)].unpinned())
        } else {
            self
        }
    }
}

/// Checks that replicas can hold an object.
fn validate_stage_replicas(replicas: &ReplicaSet, pool: &SegmentPool, required_bytes: u64) -> (checked: Result<
    (),
    StageError,
>)
    requires
        pool.wf(),
    ensures
        match checked {
            Ok(()) => replica_fault(replicas@, pool@, required_bytes) is None,
            Err(error) => replica_fault(replicas@, pool@, required_bytes) == Some(error),
        },
{
    if replicas.is_empty() {
        return Err(StageError::NoReplicas);
    }
    let all = &replicas.storage;
    let mut undersized: Option<usize> = None;
    let mut i: usize = 0;
    while i < all.len()
        invariant
            pool.wf(),
            *all == replicas.storage,
            all@.len() > 0,
            i <= all@.len(),
            first_dead(all@, pool@, 0) == first_dead(all@, pool@, i as int),
            match undersized {
                None => first_small(all@, required_bytes, 0) == first_small(
                    all@,
                    required_bytes,
                    i as int,
                ),
                Some(n) => n < i && first_small(all@, required_bytes, 0) == Some(n as int),
            },
        decreases all@.len() - i,
    {
        let replica = &all[i];
        if !replica.is_live(pool) {
            return Err(StageError::ReplicaInvalidated { replica: replica.id });
        }
        if undersized.is_none() && replica.capacity_bytes() < required_bytes {
            undersized = Some(i);
        }
        i = i + 1;
    }
    match undersized {
        Some(n) => Err(
            StageError::ReplicaTooSmall {
                replica: all[n].id,
                required_bytes,
                capacity_bytes: all[n].capacity_bytes(),
            },
        ),
        None => Ok(()),
    }
}

impl WriteClaim {
    /// Whether the claim holds the slot of an object for a write.
    pub open spec fn is_claim(
        self,
        catalog_id: u64,
        place: (u64, u64),
        name: (u64, Seq<char>),
        admission: WriteAdmission,
        now: CatalogTick,
    ) -> bool {
        &&& self.catalog_id == catalog_id
        &&& self.slot == place.0
        &&& self.id.value == place.1
        &&& self.identity@ == name
        &&& self.admission == admission
        &&& self.started_at == now
    }

    pub fn id(&self) -> (id: TransactionId)
        ensures
            id == self.id,
    {
        self.id
    }

    pub fn identity(&self) -> (identity: &ObjectIdentity)
        ensures
            *identity == *self.identity,
    {
        &self.identity
    }

    pub fn owner(&self) -> (owner: WriteOwner)
        ensures
            owner == self.admission.owner,
    {
        self.admission.owner
    }

    /// Stages replicas for the claimed write.
    pub fn stage(
        self,
        catalog: &mut ObjectCatalog,
        pool: &SegmentPool,
        sessions: &ClientRegistry,
        content: ObjectContent,
        replicas: ReplicaSet,
    ) -> (staged: Result<WriteTransaction, StageFailure>)
        requires
            old(catalog).wf(),
            pool.wf(),
        ensures
            final(catalog).wf(),
            stage_outcome(
                old(catalog)@,
                final(catalog)@,
                pool@,
                sessions@,
                self,
                content,
                replicas@,
                None,
                staged,
            ),
    {
        catalog.stage_inner(pool, sessions, self, content, replicas, None)
    }

    /// Stages replicas that are charged to a tenant for the claimed write.
    pub fn stage_accounted(
        self,
        catalog: &mut ObjectCatalog,
        pool: &SegmentPool,
        sessions: &ClientRegistry,
        content: ObjectContent,
        replicas: ReplicaSet,
        reservation: QuotaReservationGuard,
    ) -> (staged: Result<WriteTransaction, StageFailure>)
        requires
            old(catalog).wf(),
            pool.wf(),
            content.logical_bytes * replicas@.len() <= u64::MAX,
        ensures
            final(catalog).wf(),
            stage_outcome(
                old(catalog)@,
                final(catalog)@,
                pool@,
                sessions@,
                self,
                content,
                replicas@,
                Some(reservation),
                staged,
            ),
    {
        catalog.stage_inner(pool, sessions, self, content, replicas, Some(reservation))
    }
}

/// What staging a claim comes to: a transaction on the staged version, or the
/// fault, the replicas, and the claim and the reservation undone.
pub open spec fn stage_outcome(
    before: CatalogView,
    after: CatalogView,
    pool: PoolView,
    sessions: RegistryView,
    claim: WriteClaim,
    content: ObjectContent,
    replicas: Seq<ReplicaLease>,
    accounting: Option<QuotaReservationGuard>,
    staged: Result<WriteTransaction, StageFailure>,
) -> bool {
    match before.stage_fault(pool, sessions, claim, content, replicas) {
        Some(fault) => {
            &&& staged matches Err(failure) && failure.error == fault && failure.replicas@
                == replicas
            &&& after == before.stage_failed(pool, claim, accounting)
        },
        None => {
            &&& staged matches Ok(transaction) && after.is_transaction(
                claim.slot,
                claim.id.value,
                transaction,
            )
            &&& after == before.staged(
                claim.slot,
                before.staged_version(claim, content, replicas, accounting),
                claim.started_at,
            )
        },
    }
}

impl WriteTransaction {
    pub fn id(&self) -> (id: TransactionId)
        ensures
            id == self.id,
    {
        self.id
    }

    pub fn identity(&self) -> (identity: &ObjectIdentity)
        ensures
            *identity == *self.identity,
    {
        &self.identity
    }

    pub fn content(&self) -> (content: ObjectContent)
        ensures
            content == self.content,
    {
        self.content
    }

    pub fn owner(&self) -> (owner: WriteOwner)
        ensures
            owner == self.owner,
    {
        self.owner
    }

    /// The replicas of the transaction's version, as long as it is kept.
    pub fn replicas<'a>(&self, catalog: &'a ObjectCatalog) -> (replicas: Option<&'a [ReplicaLease]>)
        ensures
            replicas.is_some() == (self.catalog_id == catalog@.catalog_id
                && catalog@.versions.contains_key((self.slot, self.id.value))),
            replicas matches Some(all) ==> all@ == catalog@.versions[(
                self.slot,
                self.id.value,
            )].replicas,
    {
        if self.catalog_id != catalog.catalog_id {
            return None;
        }
        match catalog.version(self.slot, self.id.value) {
            Some(version) => Some(version.replicas.replicas()),
            None => None,
        }
    }
}

impl ObjectCatalog {
    /// Begins a write under the catalog's pin policy.
    pub fn begin_write(
        &mut self,
        identity: ObjectIdentity,
        admission: WriteAdmission,
        mode: WriteMode,
        pins: ObjectPinRequest,
        now: CatalogTick,
    ) -> (begun: Result<WriteClaim, BeginError>)
        requires
            old(self).wf(),
        ensures
            final(self).wf(),
            match old(self)@.config.resolved(pins) {
                Err(error) => begun == Err::<WriteClaim, BeginError>(
                    BeginError::InvalidPinRequest(error),
                ) && final(self)@ == old(self)@,
                Ok(resolved) => begin_outcome(
                    old(self)@,
                    final(self)@,
                    identity@,
                    admission,
                    mode,
                    resolved,
                    now,
                    begun,
                ),
            },
    {
        match self.config.resolve_pin_request(pins) {
            Err(error) => Err(BeginError::InvalidPinRequest(error)),
            Ok(resolved) => self.begin_write_resolved(identity, admission, mode, resolved, now),
        }
    }

    /// Begins a write whose pin policy is settled.
    pub fn begin_write_resolved(
        &mut self,
        identity: ObjectIdentity,
        admission: WriteAdmission,
        mode: WriteMode,
        pins: ResolvedObjectPinRequest,
        now: CatalogTick,
    ) -> (begun: Result<WriteClaim, BeginError>)
        requires
            old(self).wf(),
        ensures
            final(self).wf(),
            begin_outcome(
                old(self)@,
                final(self)@,
                identity@,
                admission,
                mode,
                pins,
                now,
                begun,
            ),
    {
        let ghost before = self@;
        if identity.key().is_empty() {
            return Err(BeginError::EmptyKey);
        }
        if self.counters.retired_bytes >= self.config.max_retired_bytes {
            return Err(BeginError::ReclamationBacklog);
        }
        let found = self.lookup_slot(identity.as_lookup());
        match found {
            None => {
                if self.next_slot == u64::MAX {
                    return Err(BeginError::IdentifiersExhausted);
                }
                let number: u64 = self.next_slot;
                let name = Arc::new(identity);
                proof {
                    lemma_begun_new(before, name, admission.owner, pins);
                }
                self.index.add(&name, number);
                self.put_slot(
                    number,
                    ObjectSlot {
                        identity: name.clone(),
                        committed: None,
                        next_transaction_id: 2,
                        next_version_id: 1,
                        active: Some(
                            ActiveTransaction {
                                id: 1,
                                owner: admission.owner,
                                base: None,
                                pins,
                                phase: TransactionPhase::Claimed,
                            },
                        ),
                    },
                );
                self.next_slot = number + 1;
                self.counters.on_claim();
                self.counters.slots = self.counters.slots.wrapping_add(1);
                Ok(
                    WriteClaim {
                        catalog_id: self.catalog_id,
                        slot: number,
                        identity: name,
                        id: TransactionId::new(1),
                        admission,
                        started_at: now,
                    },
                )
            },
            Some(number) => {
                assert(before.index.contains_key(identity@));
                let mut slot = self.take_slot(number);
                assert(before.slot_wf(number));
                if slot.active.is_some() {
                    self.put_slot(number, slot);
                    assert(self@.slots =~= before.slots);
                    return Err(BeginError::WriteInProgress);
                }
                if mode == WriteMode::Insert && slot.committed.is_some() {
                    self.put_slot(number, slot);
                    assert(self@.slots =~= before.slots);
                    return Err(BeginError::AlreadyExists);
                }
                if slot.next_transaction_id == u64::MAX {
                    self.put_slot(number, slot);
                    assert(self@.slots =~= before.slots);
                    return Err(BeginError::IdentifiersExhausted);
                }
                let id: u64 = slot.next_transaction_id;
                slot.next_transaction_id = id + 1;
                slot.active = Some(
                    ActiveTransaction {
                        id,
                        owner: admission.owner,
                        base: slot.committed,
                        pins,
                        phase: TransactionPhase::Claimed,
                    },
                );
                let name = slot.identity.clone();
                self.put_slot(number, slot);
                self.counters.on_claim();
                proof {
                    lemma_begun_in(before, number, admission.owner, pins);
                    assert(self@.slots =~= before.begun_in(number, admission.owner, pins).slots);
                }
                Ok(
                    WriteClaim {
                        catalog_id: self.catalog_id,
                        slot: number,
                        identity: name,
                        id: TransactionId::new(id),
                        admission,
                        started_at: now,
                    },
                )
            },
        }
    }

    /// Notes that a slot may be empty.
    pub(super) fn enqueue_empty(&mut self, slot: u64, now: CatalogTick)
        ensures
            final(self)@ == old(self)@.empty_noted(slot, now),
    {
        let deadline = now.saturating_add(self.config.empty_slot_grace_ticks);
        self.empty_slots.push((slot, deadline.value, 0, 0));
    }

    /// What follows the end of a transaction that leaves its slot as it was.
    fn roll_back(&mut self, pool: &SegmentPool, slot: u64, now: CatalogTick)
        requires
            old(self).wf(),
            pool.wf(),
            old(self)@.slots.contains_key(slot),
        ensures
            final(self).wf(),
            final(self)@ == old(self)@.after_rollback(pool@, slot, now),
    {
        let ghost before = self@;
        assert(before.slot_wf(slot));
        let committed = match self.slot(slot) {
            Some(value) => value.committed,
            None => None,
        };
        match committed {
            None => {
                self.enqueue_empty(slot, now);
            },
            Some(id) => {
                let live = match self.version(slot, id) {
                    Some(version) => version.replicas.has_live(pool),
                    None => true,
                };
                if !live {
                    self.liveness.requested = true;
                }
            },
        }
        proof {
            lemma_same_core(before, self@);
        }
    }

    /// Gives a claim up. The slot is as it was before the write was begun.
    pub fn drop_claim(&mut self, pool: &SegmentPool, claim: WriteClaim)
        requires
            old(self).wf(),
            pool.wf(),
        ensures
            final(self).wf(),
            final(self)@ == if claim.catalog_id == old(self)@.catalog_id {
                old(self)@.claim_dropped(pool@, claim.slot, claim.id.value, claim.started_at)
            } else {
                old(self)@
            },
    {
        if claim.catalog_id != self.catalog_id {
            return ;
        }
        self.drop_claimed(pool, claim.slot, claim.id.value, claim.started_at);
    }

    fn drop_claimed(&mut self, pool: &SegmentPool, number: u64, id: u64, started_at: CatalogTick)
        requires
            old(self).wf(),
            pool.wf(),
        ensures
            final(self).wf(),
            final(self)@ == old(self)@.claim_dropped(pool@, number, id, started_at),
    {
        let ghost before = self@;
        let holds = match self.slot(number) {
            None => false,
            Some(slot) => match slot.active {
                None => false,
                Some(active) => active.id == id && active.phase == TransactionPhase::Claimed,
            },
        };
        if !holds {
            return ;
        }
        let mut slot = self.take_slot(number);
        slot.active = None;
        self.put_slot(number, slot);
        self.counters.on_claim_dropped();
        proof {
            let middle = CatalogView {
                counters: before.counters.unclaimed(),
                ..before.with_slot(number, ObjectSlot { active: None, ..before.slots[number] })
            };
            assert(self@.slots =~= middle.slots);
            assert(self@ == middle);
            lemma_claim_dropped(before, pool@, number, id, started_at);
            lemma_same_core(before.claim_dropped(pool@, number, id, started_at), middle);
        }
        self.roll_back(pool, number, started_at);
    }

    fn stage_inner(
        &mut self,
        pool: &SegmentPool,
        sessions: &ClientRegistry,
        claim: WriteClaim,
        content: ObjectContent,
        replicas: ReplicaSet,
        accounting: Option<QuotaReservationGuard>,
    ) -> (staged: Result<WriteTransaction, StageFailure>)
        requires
            old(self).wf(),
            pool.wf(),
            accounting is Some ==> content.logical_bytes * replicas@.len() <= u64::MAX,
        ensures
            final(self).wf(),
            stage_outcome(
                old(self)@,
                final(self)@,
                pool@,
                sessions@,
                claim,
                content,
                replicas@,
                accounting,
                staged,
            ),
    {
        let ghost before = self@;
        let fault = if !claim.admission.is_active(sessions) {
            Some(StageError::OwnerInactive)
        } else if content.logical_bytes == 0 {
            Some(StageError::ZeroSize)
        } else {
            match validate_stage_replicas(&replicas, pool, content.logical_bytes) {
                Err(error) => Some(error),
                Ok(()) => if claim.catalog_id != self.catalog_id {
                    Some(StageError::CatalogDropped)
                } else if !self.claim_is_held(&claim) {
                    Some(StageError::ClaimLost)
                } else {
                    None
                },
            }
        };
        if let Some(error) = fault {
            if let Some(reservation) = accounting {
                reservation.release(&mut self.ledger);
            }
            proof {
                assert(self@ == (CatalogView {
                    accounts: unreserved(before.accounts, accounting),
                    ..before
                }));
                lemma_same_core(before, self@);
            }
            self.drop_claim(pool, claim);
            return Err(StageFailure { error, replicas });
        }
        let number: u64 = claim.slot;
        let id: u64 = claim.id.value;
        let reserved_bytes: u64 = replicas.reserved_bytes();
        let charge = match accounting {
            Some(reservation) => Some(reservation.into_charge()),
            None => None,
        };
        let mut slot = self.take_slot(number);
        let name = slot.identity.clone();
        if let Some(active) = slot.active {
            slot.active = Some(ActiveTransaction { phase: TransactionPhase::Staged, ..active });
        }
        self.put_slot(number, slot);
        let version = ObjectVersion {
            owner: claim.admission.owner,
            identity: name.clone(),
            content,
            replicas,
            reserved_bytes,
            accounting: charge,
            committed: None,
            pins: 1,
        };
        let ghost added = version@;
        self.put_version(number, id, version);
        proof {
            self.fitted@ = before.fitted && before.counters.held_bytes() + reserved_bytes
                < u64::MAX;
        }
        self.counters.on_stage(reserved_bytes);
        let deadline = claim.started_at.saturating_add(self.config.pending_timeout_ticks);
        self.pending.push((number, id, deadline.value, 0));
        proof {
            let goal = before.staged(number, added, claim.started_at);
            assert(added == before.staged_version(claim, content, replicas@, accounting));
            assert(self@.slots =~= goal.slots);
            assert(self@.versions =~= goal.versions);
            assert(self@.pending =~= goal.pending);
            lemma_staged(before, number, added, claim.started_at);
        }
        Ok(
            WriteTransaction {
                catalog_id: self.catalog_id,
                slot: number,
                id: claim.id,
                identity: name,
                content,
                owner: claim.admission.owner,
            },
        )
    }

    /// Whether a claim still holds its slot for its owner.
    fn claim_is_held(&self, claim: &WriteClaim) -> (held: bool)
        ensures
            held == (self@.claim_holds(claim.slot, claim.id.value)
                && self@.slots[claim.slot].active.unwrap().owner == claim.admission.owner),
    {
        match self.slot(claim.slot) {
            None => false,
            Some(slot) => match slot.active {
                None => false,
                Some(active) => active.id == claim.id.value && active.owner
                    == claim.admission.owner && active.phase == TransactionPhase::Claimed,
            },
        }
    }

    /// A handle on a committed version, which gains a holder.
    pub(super) fn hold(&mut self, number: u64, id: u64) -> (handle: ObjectHandle)
        requires
            old(self).wf(),
            old(self)@.versions.contains_key((number, id)),
            old(self)@.versions[(number, id)].committed is Some,
        ensures
            final(self).wf(),
            final(self)@ == old(self)@.with_version(
                number,
                id,
                old(self)@.versions[(number, id)].pinned(),
            ),
            final(self)@.is_handle(number, id, handle),
    {
        let ghost before = self@;
        let mut version = self.take_version(number, id);
        version.pin();
        let committed = match version.committed {
            Some(committed) => committed,
            None => {
                assert(false);
                vstd::pervasive::unreached()
            },
        };
        let handle = ObjectHandle {
            catalog_id: self.catalog_id,
            slot: number,
            origin: TransactionId::new(id),
            version_id: VersionId::new(committed.id),
            identity: version.identity.clone(),
            content: version.content,
            commit: committed.commit,
            owner: version.owner,
            hard_pinned: committed.access.hard_pinned,
        };
        let ghost changed = version@;
        self.put_version(number, id, version);
        proof {
            assert(self@.versions =~= before.versions.insert((number, id), changed));
            assert(before.version_wf(number, id));
            lemma_version_touched(before, number, id, changed);
        }
        handle
    }

    /// Publishes a staged version. Committing again with the same metadata
    /// returns the version that was committed.
    pub fn commit(
        &mut self,
        pool: &SegmentPool,
        transaction: &WriteTransaction,
        commit: ObjectCommit,
        now: CatalogTick,
    ) -> (committed: Result<ObjectHandle, CommitError>)
        requires
            old(self).wf(),
            pool.wf(),
        ensures
            final(self).wf(),
            final(self)@ == old(self)@.after_commit(
                pool@,
                transaction.catalog_id,
                transaction.slot,
                transaction.id.value,
                commit,
                now,
            ),
            match old(self)@.commit_path(
                pool@,
                transaction.catalog_id,
                transaction.slot,
                transaction.id.value,
                commit,
            ) {
                CommitPath::Fails(error) => committed == Err::<ObjectHandle, CommitError>(error),
                _ => committed matches Ok(handle) && final(self)@.is_handle(
                    transaction.slot,
                    transaction.id.value,
                    handle,
                ),
            },
    {
        if transaction.catalog_id != self.catalog_id {
            return Err(CommitError::ForeignCatalog);
        }
        self.commit_at(pool, transaction.slot, transaction.id.value, commit, now)
    }

    /// Publishes the version of a transaction of this catalog.
    pub fn commit_at(
        &mut self,
        pool: &SegmentPool,
        number: u64,
        id: u64,
        commit: ObjectCommit,
        now: CatalogTick,
    ) -> (committed: Result<ObjectHandle, CommitError>)
        requires
            old(self).wf(),
            pool.wf(),
        ensures
            final(self).wf(),
            final(self)@ == old(self)@.after_commit(
                pool@,
                old(self)@.catalog_id,
                number,
                id,
                commit,
                now,
            ),
            match old(self)@.commit_path(pool@, old(self)@.catalog_id, number, id, commit) {
                CommitPath::Fails(error) => committed == Err::<ObjectHandle, CommitError>(error),
                _ => committed matches Ok(handle) && final(self)@.is_handle(number, id, handle),
            },
    {
        let ghost before = self@;
        let (active, published) = match self.slot(number) {
            None => return Err(CommitError::TransactionGone),
            Some(slot) => (slot.active, slot.committed),
        };
        assert(before.slot_wf(number));
        let active = match active {
            None => {
                if published != Some(id) {
                    return Err(CommitError::TransactionGone);
                }
                let known = match self.version(number, id) {
                    Some(version) => version.committed,
                    None => None,
                };
                let same = match known {
                    Some(known) => known.commit == commit,
                    None => false,
                };
                if !same {
                    return Err(CommitError::CommitConflict);
                }
                return Ok(self.hold(number, id));
            },
            Some(active) => active,
        };
        if active.id != id {
            return Err(CommitError::TransactionGone);
        }
        if active.phase == TransactionPhase::Claimed {
            return Err(CommitError::NotStaged);
        }
        let live = match self.version(number, id) {
            Some(version) => version.replicas.all_live(pool),
            None => false,
        };
        if !live {
            return Err(CommitError::ReplicasInvalidated);
        }
        Ok(self.publish(number, commit, now))
    }

    /// Publishes the staged version of a slot.
    fn publish(&mut self, number: u64, commit: ObjectCommit, now: CatalogTick) -> (handle: ObjectHandle)
        requires
            old(self).wf(),
            old(self)@.slots.contains_key(number),
            old(self)@.slots[number].staged() is Some,
        ensures
            final(self).wf(),
            final(self)@ == old(self)@.published(number, commit, now),
            final(self)@.is_handle(number, old(self)@.slots[number].staged().unwrap(), handle),
    {
        let ghost before = self@;
        assert(before.slot_wf(number));
        let mut slot = self.take_slot(number);
        let active = match slot.active {
            Some(active) => active,
            None => {
                assert(false);
                vstd::pervasive::unreached()
            },
        };
        let id: u64 = active.id;
        let version_id: u64 = slot.next_version_id;
        slot.next_version_id = version_id + 1;
        slot.committed = Some(id);
        slot.active = None;
        self.put_slot(number, slot);
        let mut version = self.take_version(number, id);
        let replaced = match active.base {
            Some(base) => Some(self.take_version(number, base)),
            None => None,
        };
        let base_access = match &replaced {
            Some(old) => match old.committed {
                Some(committed) => Some(committed.access),
                None => {
                    assert(false);
                    None
                },
            },
            None => None,
        };
        let access = AccessControl::for_commit(base_access, active.pins, now);
        version.committed = Some(CommittedVersion { id: version_id, commit, access });
        version.pin();
        let ghost pinned = version@;
        version.step_charge(&mut self.ledger, ChargeStep::Commit);
        self.counters.on_commit(version.reserved_bytes, replaced.as_ref());
        let handle = ObjectHandle {
            catalog_id: self.catalog_id,
            slot: number,
            origin: TransactionId::new(id),
            version_id: VersionId::new(version_id),
            identity: version.identity.clone(),
            content: version.content,
            commit,
            owner: version.owner,
            hard_pinned: access.hard_pinned,
        };
        let ghost added = version@;
        self.put_version(number, id, version);
        self.young.push((number, id, 0, 0));
        if access.soft_pin_until != 0 {
            self.soft_pins.push((number, id, access.soft_pin_until, 0));
        }
        let ghost middle = self@;
        match (active.base, replaced) {
            (Some(base), Some(found)) => {
                let mut old_version = found;
                let lease_until: u64 = match old_version.committed {
                    Some(committed) => committed.access.lease_until,
                    None => 0,
                };
                let reserved_bytes: u64 = old_version.reserved_bytes;
                old_version.step_charge(&mut self.ledger, ChargeStep::Retire);
                self.retired.push((number, base, reserved_bytes, lease_until));
                self.put_version(number, base, old_version);
            },
            _ => {},
        }
        proof {
            let goal = before.published(number, commit, now);
            assert(pinned == (VersionView {
                committed: Some(CommittedVersion { id: version_id, commit, access }),
                ..before.versions[(number, id)].pinned()
            }));
            assert(self@.slots =~= goal.slots);
            assert(self@.versions =~= goal.versions);
            assert(self@.retired =~= goal.retired);
            assert(self@.young =~= goal.young);
            assert(self@.soft_pins =~= goal.soft_pins);
            assert(self@.accounts == goal.accounts);
            assert(self@.counters == goal.counters);
            lemma_published(before, number, commit, now);
        }
        handle
    }

    /// Gives a staged write up.
    pub fn abort(&mut self, pool: &SegmentPool, transaction: &WriteTransaction, now: CatalogTick) -> (aborted: Result<
        (),
        AbortError,
    >)
        requires
            old(self).wf(),
            pool.wf(),
        ensures
            final(self).wf(),
            aborted == old(self)@.abort_result(
                transaction.catalog_id,
                transaction.slot,
                transaction.id.value,
            ),
            final(self)@ == if aborted is Ok {
                old(self)@.abandoned(pool@, transaction.slot, now)
            } else {
                old(self)@
            },
    {
        if transaction.catalog_id != self.catalog_id {
            return Err(AbortError::ForeignCatalog);
        }
        self.abort_at(pool, transaction.slot, transaction.id.value, now)
    }

    /// Gives a staged write of this catalog up.
    pub fn abort_at(&mut self, pool: &SegmentPool, number: u64, id: u64, now: CatalogTick) -> (aborted: Result<
        (),
        AbortError,
    >)
        requires
            old(self).wf(),
            pool.wf(),
        ensures
            final(self).wf(),
            aborted == old(self)@.abort_result(old(self)@.catalog_id, number, id),
            final(self)@ == if aborted is Ok {
                old(self)@.abandoned(pool@, number, now)
            } else {
                old(self)@
            },
    {
        let (active, published) = match self.slot(number) {
            None => return Err(AbortError::TransactionGone),
            Some(slot) => (slot.active, slot.committed),
        };
        let active = match active {
            None => {
                if published == Some(id) {
                    return Err(AbortError::AlreadyCommitted);
                }
                return Err(AbortError::TransactionGone);
            },
            Some(active) => active,
        };
        if active.id != id || active.phase == TransactionPhase::Claimed {
            return Err(AbortError::TransactionGone);
        }
        self.abandon(pool, number, now);
        Ok(())
    }

    /// Gives the staged version of a slot up.
    pub(super) fn abandon(&mut self, pool: &SegmentPool, number: u64, now: CatalogTick)
        requires
            old(self).wf(),
            pool.wf(),
            old(self)@.slots.contains_key(number),
            old(self)@.slots[number].staged() is Some,
        ensures
            final(self).wf(),
            final(self)@ == old(self)@.abandoned(pool@, number, now),
    {
        let ghost before = self@;
        assert(before.slot_wf(number));
        let mut slot = self.take_slot(number);
        let id: u64 = match slot.active {
            Some(active) => active.id,
            None => 0,
        };
        slot.active = None;
        self.put_slot(number, slot);
        let mut version = self.take_version(number, id);
        let ghost old_version = version@;
        let reserved_bytes: u64 = version.reserved_bytes;
        self.counters.on_abort_pending(&version);
        version.step_charge(&mut self.ledger, ChargeStep::Abort);
        self.put_version(number, id, version);
        self.retired.push((number, id, reserved_bytes, now.value));
        proof {
            lemma_abandoned(before, pool@, number, now);
            let middle = CatalogView {
                counters: before.counters.aborted(old_version),
                retired: before.retired.push((number, id, old_version.reserved_bytes, now.value)),
                accounts: old_version.accounts_stepped(before.accounts, ChargeStep::Abort),
                ..before.with_slot(
                    number,
                    ObjectSlot { active: None, ..before.slots[number] },
                ).with_version(number, id, old_version.charge_stepped(ChargeStep::Abort))
            };
            assert(self@.slots =~= middle.slots);
            assert(self@.versions =~= middle.versions);
            assert(self@ == middle);
            assert(before.abandoned(pool@, number, now) == middle.after_rollback(
                pool@,
                number,
                now,
            ));
            lemma_same_core(before.abandoned(pool@, number, now), middle);
        }
        self.roll_back(pool, number, now);
    }

    /// The slot and the transaction of the staged write or the committed version
    /// under a name, and whether it is staged.
    pub fn find_write(&self, lookup: ObjectLookup<'_>) -> (found: Result<
        (u64, u64, bool),
        LookupError,
    >)
        requires
            self.wf(),
        ensures
            found == self@.resolve_result(lookup@),
            found matches Ok(place) ==> self@.versions.contains_key((place.0, place.1))
                && self@.versions[(place.0, place.1)].committed is Some == !place.2,
    {
        let number: u64 = match self.lookup_slot(lookup) {
            None => return Err(LookupError::NotFound),
            Some(number) => number,
        };
        assert(self@.index.contains_key(lookup@));
        assert(self@.slot_wf(number));
        match self.slot(number) {
            None => Err(LookupError::NotFound),
            Some(slot) => match slot.active {
                Some(active) => if active.phase == TransactionPhase::Claimed {
                    Err(LookupError::NotReady)
                } else {
                    Ok((number, active.id, true))
                },
                None => match slot.committed {
                    Some(id) => Ok((number, id, false)),
                    None => Err(LookupError::NotFound),
                },
            },
        }
    }

    /// The owner of a version, and whether it has a replica, a live one where
    /// `live` is set.
    pub fn write_facts(&self, pool: &SegmentPool, number: u64, id: u64, live: bool) -> (facts: Option<
        (WriteOwner, bool),
    >)
        requires
            pool.wf(),
        ensures
            facts == if self@.versions.contains_key((number, id)) {
                Some(
                    (
                        self@.versions[(number, id)].owner,
                        if live {
                            has_live(self@.versions[(number, id)].replicas, pool@)
                        } else {
                            self@.versions[(number, id)].replicas.len() > 0
                        },
                    ),
                )
            } else {
                None
            },
    {
        match self.version(number, id) {
            None => None,
            Some(version) => {
                let present = if live {
                    version.replicas.has_live(pool)
                } else {
                    version.replicas.len() > 0
                };
                Some((version.owner, present))
            },
        }
    }

    /// The staged write or the committed version under a name. The token that
    /// is returned holds on to its version.
    pub fn resolve_write(&mut self, lookup: ObjectLookup<'_>) -> (resolved: Result<
        WriteResolution,
        LookupError,
    >)
        requires
            old(self).wf(),
        ensures
            final(self).wf(),
            match old(self)@.resolve_result(lookup@) {
                Err(error) => resolved == Err::<WriteResolution, LookupError>(error) && final(self)@ == old(self)@,
                Ok((slot, id, staged)) => {
                    &&& final(self)@ == old(self)@.with_version(
                        slot,
                        id,
                        old(self)@.versions[(slot, id)].pinned(),
                    )
                    &&& old(self)@.versions.contains_key((slot, id))
                    &&& match resolved {
                        Ok(WriteResolution::Active(transaction)) => staged
                            && final(self)@.is_transaction(slot, id, transaction),
                        Ok(WriteResolution::Committed(handle)) => !staged
                            && final(self)@.is_handle(slot, id, handle),
                        Err(_) => false,
                    }
                },
            },
    {
        let ghost before = self@;
        let number: u64 = match self.lookup_slot(lookup) {
            None => return Err(LookupError::NotFound),
            Some(number) => number,
        };
        assert(before.index.contains_key(lookup@));
        assert(before.slot_wf(number));
        let (active, published) = match self.slot(number) {
            None => return Err(LookupError::NotFound),
            Some(slot) => (slot.active, slot.committed),
        };
        match active {
            Some(active) => {
                if active.phase == TransactionPhase::Claimed {
                    return Err(LookupError::NotReady);
                }
                let id: u64 = active.id;
                let mut version = self.take_version(number, id);
                version.pin();
                let transaction = WriteTransaction {
                    catalog_id: self.catalog_id,
                    slot: number,
                    id: TransactionId::new(id),
                    identity: version.identity.clone(),
                    content: version.content,
                    owner: version.owner,
                };
                let ghost changed = version@;
                self.put_version(number, id, version);
                proof {
                    assert(self@.versions =~= before.versions.insert((number, id), changed));
                    assert(before.version_wf(number, id));
                    lemma_version_touched(before, number, id, changed);
                }
                Ok(WriteResolution::Active(transaction))
            },
            None => match published {
                None => Err(LookupError::NotFound),
                Some(id) => Ok(WriteResolution::Committed(self.hold(number, id))),
            },
        }
    }

    /// Takes one holder of a version away, if the version is still kept.
    fn let_go(&mut self, catalog_id: u64, number: u64, id: u64)
        requires
            old(self).wf(),
        ensures
            final(self).wf(),
            final(self)@ == old(self)@.version_released(catalog_id, number, id),
    {
        let ghost before = self@;
        if catalog_id != self.catalog_id || self.version(number, id).is_none() {
            return ;
        }
        let mut version = self.take_version(number, id);
        version.unpin();
        let ghost changed = version@;
        self.put_version(number, id, version);
        proof {
            assert(self@.versions =~= before.versions.insert((number, id), changed));
            assert(before.version_wf(number, id));
            lemma_version_touched(before, number, id, changed);
        }
    }

    /// Gives a transaction token back. The transaction itself goes on.
    pub fn release_transaction(&mut self, transaction: WriteTransaction)
        requires
            old(self).wf(),
        ensures
            final(self).wf(),
            final(self)@ == old(self)@.version_released(
                transaction.catalog_id,
                transaction.slot,
                transaction.id.value,
            ),
    {
        self.let_go(transaction.catalog_id, transaction.slot, transaction.id.value);
    }

    /// Gives a handle back.
    pub fn release_handle(&mut self, handle: ObjectHandle)
        requires
            old(self).wf(),
        ensures
            final(self).wf(),
            final(self)@ == old(self)@.version_released(
                handle.catalog_id,
                handle.slot,
                handle.origin.value,
            ),
    {
        self.let_go(handle.catalog_id, handle.slot, handle.origin.value);
    }
}

/// What beginning a write comes to: a claim on the object's slot, or the fault
/// and nothing changed.
pub open spec fn begin_outcome(
    before: CatalogView,
    after: CatalogView,
    name: (u64, Seq<char>),
    admission: WriteAdmission,
    mode: WriteMode,
    pins: ResolvedObjectPinRequest,
    now: CatalogTick,
    begun: Result<WriteClaim, BeginError>,
) -> bool {
    match before.begin_result(name, mode) {
        Err(error) => begun == Err::<WriteClaim, BeginError>(error) && after == before,
        Ok(place) => {
            &&& begun matches Ok(claim) && claim.is_claim(
                before.catalog_id,
                place,
                name,
                admission,
                now,
            ) && claim.identity == after.slots[place.0].identity && after == (if before.find(name)
                is Some {
                before.begun_in(place.0, admission.owner, pins)
            } else {
                before.begun_new(claim.identity, admission.owner, pins)
            })
        },
    }
}

} // verus!
