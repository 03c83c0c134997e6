//! Managed writes, reads and maintenance of objects.

use super::catalog::read::{batch_trail, names_of, ObjectRead};
use super::catalog::state::CatalogView;
use super::catalog::write::{begin_outcome, StageFailure, WriteClaim};
use super::catalog::ObjectCatalog;
use super::config::{
    ObjectCatalogConfig, ObjectPinRequest, ResolvedObjectPinRequest, SoftPinAction,
    DEFAULT_EXPECTED_OBJECTS, MAX_EXPECTED_OBJECTS,
};
use super::content::ObjectContent;
use super::error::{
    AbortError, BeginError, LookupError, ObjectCatalogConfigError, ObjectManagerError,
    ObjectRemoveError, RemoveError,
};
use super::eviction::{
    MemoryEvictionConfig, MemoryEvictionController, MemoryEvictionStats,
};
use super::identity::{NamespaceId, ObjectIdentity, ObjectLookup};
use super::reclamation::{
    CatalogTick, CollectBudget, CollectReport, ReclaimFilter, ReclaimTarget,
};
use super::replica::{has_live, numbered, reservations_of, ReplicaId, ReplicaLease, ReplicaSet};
use super::tenant::quota::{QuotaReservationGuard, TenantAccounts};
use super::tenant::types::{TenantObjectError, TenantResourceClass};
use super::write::{ObjectCommit, WriteAdmission, WriteMode, WriteOwner};
use crate::client::lifecycle::{ClientRegistry, ClientSession, RegistryView};
use crate::segment::descriptor::ReservationDescriptor;
use crate::segment::placement::{
    placement_outcome, FreeCapacityPolicy, FulfillmentPolicy, PlacementError, PlacementRequest,
    ReplicaAllocator, ReservationSet,
};
use crate::segment::pool::{PoolView, SegmentPool};
use crate::segment::reservation::Reservation;
use crate::segment::spec::ReplicaClass;
use vstd::prelude::*;
use vstd::std_specs::convert::FromSpec;

verus! {

/// What is to be stored and where.
#[derive(Clone, Debug)]
pub struct ObjectPutPlan {
    pub content: ObjectContent,
    pub placement: PlacementRequest,
    pub pins: ObjectPinRequest,
}

impl ObjectPutPlan {
    /// What a plan comes to under a catalog's configuration.
    pub open spec fn checked(self, config: ObjectCatalogConfig) -> Result<
        ResolvedObjectPinRequest,
        ObjectManagerError,
    > {
        if self.content.logical_bytes == 0 || self.placement.allocation.bytes
            != self.content.logical_bytes || self.placement.replicas.count == 0 {
            Err(ObjectManagerError::InvalidPlan)
        } else {
            match config.resolved(self.pins) {
                Ok(pins) => Ok(pins),
                Err(_) => Err(ObjectManagerError::InvalidPlan),
            }
        }
    }

    pub fn new(content: ObjectContent, placement: PlacementRequest) -> (plan: Self)
        ensures
            plan.content == content,
            plan.placement == placement,
            plan.pins == (ObjectPinRequest {
                soft_pin_action: SoftPinAction::Preserve,
                soft_pin_ttl_ticks: None,
                with_hard_pin: false,
            }),
    {
        Self {
            content,
            placement,
            pins: ObjectPinRequest::new(SoftPinAction::Preserve, None, false),
        }
    }

    pub fn content(&self) -> (content: ObjectContent)
        ensures
            content == self.content,
    {
        self.content
    }

    pub fn placement(&self) -> (placement: &PlacementRequest)
        ensures
            *placement == self.placement,
    {
        &self.placement
    }

    pub fn with_pins(self, pins: ObjectPinRequest) -> (plan: Self)
        ensures
            plan == (ObjectPutPlan { pins, ..self }),
    {
        Self { pins, ..self }
    }

    pub fn pins(&self) -> (pins: ObjectPinRequest)
        ensures
            pins == self.pins,
    {
        self.pins
    }
}

/// Which replicas of a write a request speaks of.
#[derive(Clone, Copy, Debug, Eq, PartialEq, Structural)]
pub enum ReplicaSelector {
    All,
    Class(ReplicaClass),
}

/// A replica that a writer can fill.
#[derive(Clone, Debug, Eq, PartialEq)]
pub struct AllocatedReplica {
    pub id: ReplicaId,
    pub descriptor: ReservationDescriptor,
}

impl AllocatedReplica {
    pub fn id(&self) -> (id: ReplicaId)
        ensures
            id == self.id,
    {
        self.id
    }

    pub fn descriptor(&self) -> (descriptor: &ReservationDescriptor)
        ensures
            *descriptor == self.descriptor,
    {
        &self.descriptor
    }
}

/// A write that was started, with the replicas to fill.
#[derive(Clone, Debug, Eq, PartialEq)]
pub struct StartedPut {
    pub replica_class: ReplicaClass,
    pub replicas: Vec<AllocatedReplica>,
}

impl StartedPut {
    /// Whether the replicas of a started write are given ones.
    pub open spec fn describes(self, replicas: Seq<ReplicaLease>) -> bool {
        &&& self.replica_class == ReplicaClass::Memory
        &&& self.replicas@.len() == replicas.len()
        &&& forall|i: int|
            0 <= i < replicas.len() ==> {
                &&& (#[trigger] self.replicas@[i]).id == replicas[i].id
                &&& self.replicas@[i].descriptor@ == replicas[i].reservation.descriptor_view()
            }
    }

    pub fn replica_class(&self) -> (class: ReplicaClass)
        ensures
            class == self.replica_class,
    {
        self.replica_class
    }

    pub fn replicas(&self) -> (replicas: &[AllocatedReplica])
        ensures
            replicas@ == self.replicas@,
    {
        self.replicas.as_slice()
    }
}

/// What a maintenance round did.
#[derive(Clone, Copy, Debug, Eq, PartialEq, Structural)]
pub struct ObjectManagerMaintenance {
    pub expired_writes: usize,
    pub catalog: CollectReport,
    pub memory_eviction: Option<MemoryEvictionStats>,
}

/// A claimed object whose replicas have been allocated but whose catalog record
/// has not been staged yet.
#[derive(Debug)]
pub struct PreparedPut {
    pub content: ObjectContent,
    pub claim: WriteClaim,
    pub replicas: ReplicaSet,
}

/// What a try of a write came to.
enum PutStep {
    Done(Result<PreparedPut, ObjectManagerError>),
    Again,
}

/// What a failed allocation lacks.
#[derive(Clone, Copy, Debug, Eq, PartialEq, Structural)]
pub struct AllocationShortfall {
    pub reclaim_bytes: u64,
    pub allocation_bytes: u64,
}

/// The contents of an [`ObjectManager`].
pub struct ManagerView {
    pub catalog: CatalogView,
    /// The last change of the segments that the manager has seen.
    pub observed_epoch: u64,
    pub eviction: Option<MemoryEvictionController>,
}

/// A manager together with the pool that it places replicas in.
pub struct Store {
    pub manager: ManagerView,
    pub pool: PoolView,
}

pub open spec fn store_of(manager: ManagerView, pool: PoolView) -> Store {
    Store { manager, pool }
}

/// A product that stops at the largest value.
pub open spec fn capped_product(left: u64, right: int) -> u64 {
    if left * right > u64::MAX {
        u64::MAX
    } else {
        (left * right) as u64
    }
}

/// What an allocation lacks that placed `allocated` of `requested` replicas.
pub open spec fn shortfall_of(plan: ObjectPutPlan, requested: usize, allocated: usize) -> AllocationShortfall {
    let missing: int = match plan.placement.fulfillment {
        FulfillmentPolicy::AllOrNothing => if requested < allocated {
            0
        } else {
            requested - allocated
        },
        FulfillmentPolicy::BestEffort => 1,
    };
    AllocationShortfall {
        allocation_bytes: plan.placement.allocation.bytes,
        reclaim_bytes: capped_product(plan.placement.allocation.bytes, missing),
    }
}

impl ManagerView {
    pub open spec fn wf(self) -> bool {
        &&& self.catalog.wf()
        &&& self.eviction matches Some(controller) ==> controller.config.wf()
    }

    /// The catalog as a maintenance round finds it: a change of the segments
    /// asks for a liveness sweep.
    pub open spec fn noticed(self, pool: PoolView) -> CatalogView {
        if self.observed_epoch != pool.invalidation_epoch {
            self.catalog.sweep_requested()
        } else {
            self.catalog
        }
    }

    /// The targets of a maintenance round: memory pressure adds one.
    pub open spec fn pressed_targets(self, pool: PoolView, targets: Seq<ReclaimTarget>) -> Seq<
        ReclaimTarget,
    > {
        match self.eviction {
            None => targets,
            Some(controller) => targets.push(
                ReclaimTarget {
                    filter: ReclaimFilter::Class(ReplicaClass::Memory),
                    bytes: controller.step_target(
                        pool.space_of(ReplicaClass::Memory),
                        self.noticed(pool).stats(),
                    ),
                },
            ),
        }
    }

    /// The manager after the debt of a failed allocation was settled.
    pub open spec fn settled(self, generation: Option<u64>) -> ManagerView {
        ManagerView {
            eviction: match (self.eviction, generation) {
                (Some(controller), Some(generation)) => Some(
                    controller.allocation_settled(generation),
                ),
                _ => self.eviction,
            },
            ..self
        }
    }

    /// The manager after a retry was counted.
    pub open spec fn retry_counted(self, success: bool) -> ManagerView {
        ManagerView {
            eviction: match self.eviction {
                Some(controller) => Some(
                    if success {
                        MemoryEvictionController {
                            stats: MemoryEvictionStats {
                                allocation_retry_successes: crate::client::lifecycle::capped_sum(
                                    controller.stats.allocation_retry_successes,
                                    1,
                                ),
                                ..controller.stats
                            },
                            ..controller
                        }
                    } else {
                        MemoryEvictionController {
                            stats: MemoryEvictionStats {
                                allocation_retries: crate::client::lifecycle::capped_sum(
                                    controller.stats.allocation_retries,
                                    1,
                                ),
                                ..controller.stats
                            },
                            ..controller
                        }
                    },
                ),
                None => None,
            },
            ..self
        }
    }

    /// How often a failed allocation is tried again.
    pub open spec fn retry_limit(self) -> nat {
        match self.eviction {
            Some(controller) => controller.config.allocation_retry_limit as nat,
            None => 0,
        }
    }
}

impl Store {
    pub open spec fn with_catalog(self, catalog: CatalogView) -> Store {
        Store { manager: ManagerView { catalog, ..self.manager }, ..self }
    }

    /// Whether `after` is this store after a maintenance round.
    pub open spec fn maintained(
        self,
        after: Store,
        now: CatalogTick,
        budget: CollectBudget,
        targets: Seq<ReclaimTarget>,
        report: CollectReport,
    ) -> bool {
        let catalog = self.manager.noticed(self.pool);
        let sweep = catalog.collected(
            self.pool,
            now,
            budget,
            self.manager.pressed_targets(self.pool, targets),
        );
        &&& after.manager.catalog == sweep.catalog
        &&& report == sweep.report
        &&& self.pool.released_all(after.pool, sweep.freed)
        &&& after.manager.observed_epoch == self.pool.invalidation_epoch
        &&& after.manager.eviction == match self.manager.eviction {
            None => None,
            Some(controller) => Some(
                controller.step_prepared(
                    self.pool.space_of(ReplicaClass::Memory),
                    catalog.stats(),
                ).step_finished(
                    after.pool.space_of(ReplicaClass::Memory),
                    sweep.catalog.stats(),
                    report,
                ),
            ),
        }
    }

    /// Whether a round after a failed allocation made enough room to try again.
    pub open spec fn made_room(
        self,
        after: Store,
        shortfall: AllocationShortfall,
        report: CollectReport,
    ) -> bool {
        let before = self.pool.space_of(ReplicaClass::Memory);
        let space = after.pool.space_of(ReplicaClass::Memory);
        &&& !report.busy
        &&& space.largest_free_region_bytes >= shortfall.allocation_bytes
        &&& report.reclaimed_memory_bytes != 0 || space.used_bytes < before.used_bytes
            || space.largest_free_region_bytes > before.largest_free_region_bytes
    }

    /// The store with the debt of a failed allocation noted.
    pub open spec fn failure_noted(self, shortfall: AllocationShortfall) -> Store {
        Store {
            manager: ManagerView {
                eviction: match self.manager.eviction {
                    Some(controller) => Some(
                        controller.allocation_failed(shortfall.reclaim_bytes),
                    ),
                    None => None,
                },
                ..self.manager
            },
            ..self
        }
    }

    /// Whether `after` is this store after the round that follows a failed
    /// allocation, and whether that round made enough room to try again.
    pub open spec fn evicted_for(
        self,
        after: Store,
        shortfall: AllocationShortfall,
        now: CatalogTick,
        progress: bool,
    ) -> bool {
        exists|report: CollectReport|
            {
                &&& #[trigger] self.failure_noted(shortfall).maintained(
                    after,
                    now,
                    self.manager.eviction.unwrap().config.allocation_failure_budget,
                    Seq::empty(),
                    report,
                )
                &&& progress == self.made_room(after, shortfall, report)
            }
    }
}

/// What a write asks for.
pub struct PutRequest {
    pub name: (u64, Seq<char>),
    pub admission: WriteAdmission,
    pub plan: ObjectPutPlan,
    pub mode: WriteMode,
    pub pins: ResolvedObjectPinRequest,
    pub now: CatalogTick,
}

/// One try of a write: the claim, the catalog with the claim, and what placing
/// the replicas came to.
pub struct PutTry {
    pub claim: WriteClaim,
    pub claimed: CatalogView,
    pub pool: PoolView,
    pub placed: Result<ReservationSet, PlacementError>,
}

impl PutTry {
    /// What the try lacks, where it placed too little.
    pub open spec fn shortfall(self, plan: ObjectPutPlan) -> Option<AllocationShortfall> {
        match self.placed {
            Ok(set) => if set@.len() == 0 {
                Some(shortfall_of(plan, plan.placement.replicas.count, 0))
            } else {
                None
            },
            Err(PlacementError::InsufficientReplicas { requested, allocated }) => Some(
                shortfall_of(plan, requested, allocated),
            ),
            Err(_) => None,
        }
    }
}

impl Store {
    /// Whether a try of a write can come about in this store.
    pub open spec fn can_try(self, request: PutRequest, attempt: PutTry) -> bool {
        &&& begin_outcome(
            self.manager.catalog,
            attempt.claimed,
            request.name,
            request.admission,
            request.mode,
            request.pins,
            request.now,
            Ok(attempt.claim),
        )
        &&& placement_outcome(
            FreeCapacityPolicy,
            self.pool,
            attempt.pool,
            request.plan.placement,
            attempt.placed,
        )
    }

    /// The store after a try whose claim was dropped.
    pub open spec fn try_dropped(self, request: PutRequest, attempt: PutTry) -> Store {
        Store {
            manager: ManagerView {
                catalog: attempt.claimed.claim_dropped(
                    attempt.pool,
                    attempt.claim.slot,
                    attempt.claim.id.value,
                    request.now,
                ),
                ..self.manager
            },
            pool: attempt.pool,
        }
    }

    /// Whether `after` and `outcome` are what preparing a write comes to: the
    /// object is claimed and its replicas are placed; where there is not enough
    /// room and eviction is configured, a bounded maintenance round follows,
    /// and if it made room, another try.
    #[verifier::opaque]
    pub open spec fn prepared(
        self,
        after: Store,
        request: PutRequest,
        retries: nat,
        generation: Option<u64>,
        outcome: Result<PreparedPut, ObjectManagerError>,
    ) -> bool
        decreases self.manager.retry_limit() - retries, 1int,
    {
        match self.manager.catalog.begin_result(request.name, request.mode) {
            Err(error) => {
                &&& outcome == Err::<PreparedPut, ObjectManagerError>(
                    ObjectManagerError::from_spec(error),
                )
                &&& after == (Store { manager: self.manager.settled(generation), ..self })
            },
            Ok(_) => exists|attempt: PutTry| #[trigger]
                self.can_try(request, attempt) && self.tried(
                    after,
                    request,
                    retries,
                    generation,
                    attempt,
                    outcome,
                ),
        }
    }

    /// Whether `after` and `outcome` are what a try of a write comes to.
    #[verifier::opaque]
    pub open spec fn tried(
        self,
        after: Store,
        request: PutRequest,
        retries: nat,
        generation: Option<u64>,
        attempt: PutTry,
        outcome: Result<PreparedPut, ObjectManagerError>,
    ) -> bool
        decreases self.manager.retry_limit() - retries, 0int,
    {
        let dropped = self.try_dropped(request, attempt);
        match attempt.shortfall(request.plan) {
            Some(shortfall) => if self.manager.eviction is None {
                &&& outcome == Err::<PreparedPut, ObjectManagerError>(
                    ObjectManagerError::NoAvailableReplicas,
                )
                &&& after == dropped
            } else {
                exists|middle: Store, progress: bool|
                    {
                        &&& #[trigger] dropped.evicted_for(
                            middle,
                            shortfall,
                            request.now,
                            progress,
                        )
                        &&& if retries >= self.manager.retry_limit() || !progress {
                            &&& outcome == Err::<PreparedPut, ObjectManagerError>(
                                ObjectManagerError::NoAvailableReplicas,
                            )
                            &&& after == middle
                        } else {
                            let next = Store {
                                manager: middle.manager.retry_counted(false),
                                ..middle
                            };
                            &&& next.manager.retry_limit() == self.manager.retry_limit()
                            &&& next.prepared(
                                after,
                                request,
                                retries + 1,
                                Some(middle.manager.eviction.unwrap().allocation_generation),
                                outcome,
                            )
                        }
                    }
            },
            None => match attempt.placed {
                Err(error) => {
                    &&& outcome == Err::<PreparedPut, ObjectManagerError>(
                        ObjectManagerError::from_spec(error),
                    )
                    &&& after == (Store {
                        manager: dropped.manager.settled(generation),
                        ..dropped
                    })
                },
                Ok(set) => if set@.len() > u32::MAX {
                    &&& outcome == Err::<PreparedPut, ObjectManagerError>(
                        ObjectManagerError::Internal,
                    )
                    &&& after.manager == dropped.manager.settled(generation)
                    &&& dropped.pool.released_all(after.pool, set@)
                } else {
                    let kept = self.manager.settled(generation);
                    &&& outcome matches Ok(put) && put.claim == attempt.claim && put.content
                        == request.plan.content && put.replicas@ == numbered(set@)
                    &&& after == (Store {
                        manager: ManagerView {
                            catalog: attempt.claimed,
                            ..if retries > 0 {
                                kept.retry_counted(true)
                            } else {
                                kept
                            }
                        },
                        pool: attempt.pool,
                    })
                },
            },
        }
    }

    /// Whether `after` and `outcome` are what staging a prepared write comes to.
    /// Replicas that could not be staged are given back.
    pub open spec fn finalized(
        self,
        after: Store,
        sessions: RegistryView,
        claim: WriteClaim,
        content: ObjectContent,
        replicas: Seq<ReplicaLease>,
        accounting: Option<QuotaReservationGuard>,
        outcome: Result<StartedPut, ObjectManagerError>,
    ) -> bool {
        match self.manager.catalog.stage_fault(self.pool, sessions, claim, content, replicas) {
            Some(fault) => {
                &&& outcome == Err::<StartedPut, ObjectManagerError>(
                    ObjectManagerError::from_spec(fault),
                )
                &&& after.manager == (ManagerView {
                    catalog: self.manager.catalog.stage_failed(self.pool, claim, accounting),
                    ..self.manager
                })
                &&& self.pool.released_all(after.pool, reservations_of(replicas))
            },
            None => {
                &&& outcome matches Ok(started) && started.describes(replicas)
                &&& after == self.with_catalog(
                    self.manager.catalog.staged(
                        claim.slot,
                        self.manager.catalog.staged_version(claim, content, replicas, accounting),
                        claim.started_at,
                    ).version_released(
                        self.manager.catalog.catalog_id,
                        claim.slot,
                        claim.id.value,
                    ),
                )
            },
        }
    }

    /// Whether `after` and `outcome` are what starting a write comes to.
    pub open spec fn started(
        self,
        after: Store,
        sessions: RegistryView,
        name: (u64, Seq<char>),
        admission: WriteAdmission,
        plan: ObjectPutPlan,
        mode: WriteMode,
        now: CatalogTick,
        outcome: Result<StartedPut, ObjectManagerError>,
    ) -> bool {
        match plan.checked(self.manager.catalog.config) {
            Err(error) => outcome == Err::<StartedPut, ObjectManagerError>(error) && after == self,
            Ok(pins) => {
                let request = PutRequest { name, admission, plan, mode, pins, now };
                exists|middle: Store, put: Result<PreparedPut, ObjectManagerError>|
                    {
                        &&& #[trigger] self.prepared(middle, request, 0, None, put)
                        &&& match put {
                            Err(error) => outcome == Err::<StartedPut, ObjectManagerError>(error)
                                && after == middle,
                            Ok(prepared) => middle.finalized(
                                after,
                                sessions,
                                prepared.claim,
                                prepared.content,
                                prepared.replicas@,
                                None,
                                outcome,
                            ),
                        }
                    }
            },
        }
    }
}

impl Store {
    /// Whether `after` follows when a prepared write is given up.
    pub open spec fn abandoned(
        self,
        after: Store,
        claim: WriteClaim,
        replicas: Seq<ReplicaLease>,
    ) -> bool {
        &&& after.manager == (ManagerView {
            catalog: self.manager.catalog.claim_dropped(
                self.pool,
                claim.slot,
                claim.id.value,
                claim.started_at,
            ),
            ..self.manager
        })
        &&& self.pool.released_all(after.pool, reservations_of(replicas))
    }
}

/// Stores objects in the segments of a pool.
pub struct ObjectManager {
    catalog: ObjectCatalog,
    allocator: ReplicaAllocator<FreeCapacityPolicy>,
    observed_segment_epoch: u64,
    memory_eviction: Option<MemoryEvictionController>,
}

impl View for ObjectManager {
    type V = ManagerView;

    closed spec fn view(&self) -> ManagerView {
        ManagerView {
            catalog: self.catalog@,
            observed_epoch: self.observed_segment_epoch,
            eviction: self.memory_eviction,
        }
    }
}

fn started_put(replicas: &[ReplicaLease]) -> (started: StartedPut)
    ensures
        started.describes(replicas@),
{
    let mut described: Vec<AllocatedReplica> = Vec::new();
    let mut i: usize = 0;
    while i < replicas.len()
        invariant
            i <= replicas@.len(),
            described@.len() == i,
            forall|j: int|
                0 <= j < i ==> {
                    &&& (#[trigger] described@[j]).id == replicas@[j].id
                    &&& described@[j].descriptor@ == replicas@[j].reservation.descriptor_view()
                },
        decreases replicas@.len() - i,
    {
        let replica = &replicas[i];
        described.push(
            AllocatedReplica { id: replica.id(), descriptor: replica.owned_descriptor() },
        );
        i = i + 1;
    }
    StartedPut { replica_class: ReplicaClass::Memory, replicas: described }
}

fn allocation_shortfall(plan: &ObjectPutPlan, requested_replicas: usize, allocated_replicas: usize) -> (shortfall: AllocationShortfall)
    ensures
        shortfall == shortfall_of(*plan, requested_replicas, allocated_replicas),
{
    let missing_replicas: usize = match plan.placement.fulfillment {
        FulfillmentPolicy::AllOrNothing => requested_replicas.saturating_sub(allocated_replicas),
        FulfillmentPolicy::BestEffort => 1,
    };
    let allocation_bytes: u64 = plan.placement.allocation.bytes;
    let reclaim_bytes: u64 = match allocation_bytes.checked_mul(missing_replicas as u64) {
        Some(bytes) => bytes,
        None => u64::MAX,
    };
    AllocationShortfall { allocation_bytes, reclaim_bytes }
}

impl ObjectManager {
    /// What holds of every manager.
    pub closed spec fn wf(&self) -> bool {
        &&& self.catalog.wf()
        &&& self.memory_eviction matches Some(controller) ==> controller.config.wf()
    }

    /// A manager's own invariant, for callers that hold the manager.
    pub proof fn lemma_wf(&self)
        requires
            self.wf(),
        ensures
            self@.wf(),
    {
        self.catalog.lemma_wf();
    }

    fn make(pool: &SegmentPool, catalog: ObjectCatalog, memory_eviction: Option<MemoryEvictionController>) -> (manager: Self)
        requires
            catalog.wf(),
            memory_eviction matches Some(controller) ==> controller.config.wf(),
        ensures
            manager.wf(),
            manager@ == (ManagerView {
                catalog: catalog@,
                observed_epoch: pool@.invalidation_epoch,
                eviction: memory_eviction,
            }),
    {
        Self {
            catalog,
            allocator: ReplicaAllocator::new(),
            observed_segment_epoch: pool.invalidation_epoch(),
            memory_eviction,
        }
    }

    /// A manager with the default configuration and without eviction under
    /// memory pressure.
    pub fn new(catalog_id: u64, pool: &SegmentPool) -> (manager: Self)
        ensures
            manager.wf(),
            manager@ == (ManagerView {
                catalog: CatalogView::empty(
                    catalog_id,
                    ObjectCatalogConfig::usual(DEFAULT_EXPECTED_OBJECTS),
                ),
                observed_epoch: pool@.invalidation_epoch,
                eviction: None,
            }),
    {
        Self::make(pool, ObjectCatalog::new(catalog_id), None)
    }

    pub fn with_config(catalog_id: u64, pool: &SegmentPool, config: ObjectCatalogConfig) -> (made: Result<
        Self,
        ObjectCatalogConfigError,
    >)
        requires
            config.expected_objects <= MAX_EXPECTED_OBJECTS,
        ensures
            match config.fault() {
                Some(fault) => made == Err::<Self, ObjectCatalogConfigError>(fault),
                None => made matches Ok(manager) && manager.wf() && manager@ == (ManagerView {
                    catalog: CatalogView::empty(catalog_id, config),
                    observed_epoch: pool@.invalidation_epoch,
                    eviction: None,
                }),
            },
    {
        match ObjectCatalog::with_config(catalog_id, config) {
            Ok(catalog) => Ok(Self::make(pool, catalog, None)),
            Err(error) => Err(error),
        }
    }

    /// Creates a manager with production memory-watermark eviction enabled.
    pub fn with_eviction_config(
        catalog_id: u64,
        pool: &SegmentPool,
        config: ObjectCatalogConfig,
        eviction: MemoryEvictionConfig,
    ) -> (made: Result<Self, ObjectCatalogConfigError>)
        requires
            config.expected_objects <= MAX_EXPECTED_OBJECTS,
            eviction.wf(),
        ensures
            match config.fault() {
                Some(fault) => made == Err::<Self, ObjectCatalogConfigError>(fault),
                None => made matches Ok(manager) && manager.wf() && manager@ == (ManagerView {
                    catalog: CatalogView::empty(catalog_id, config),
                    observed_epoch: pool@.invalidation_epoch,
                    eviction: Some(
                        MemoryEvictionController {
                            config: eviction,
                            stats: MemoryEvictionStats::zero(),
                            watermark_active: false,
                            allocation_reclaim_bytes: 0,
                            allocation_generation: 0,
                        },
                    ),
                }),
            },
    {
        match ObjectCatalog::with_config(catalog_id, config) {
            Ok(catalog) => Ok(
                Self::make(pool, catalog, Some(MemoryEvictionController::new(eviction))),
            ),
            Err(error) => Err(error),
        }
    }

    pub fn catalog(&self) -> (catalog: &ObjectCatalog)
        ensures
            catalog@ == self@.catalog,
    {
        &self.catalog
    }

    /// Returns production memory-eviction diagnostics when the controller is
    /// enabled.
    pub fn memory_eviction_stats(&self) -> (stats: Option<MemoryEvictionStats>)
        ensures
            stats == match self@.eviction {
                Some(controller) => Some(controller.stats),
                None => None,
            },
    {
        match &self.memory_eviction {
            Some(controller) => Some(controller.stats()),
            None => None,
        }
    }

    pub(super) fn validate_plan(&self, plan: &ObjectPutPlan) -> (checked: Result<
        ResolvedObjectPinRequest,
        ObjectManagerError,
    >)
        ensures
            checked == plan.checked(self@.catalog.config),
    {
        if plan.content.logical_bytes == 0 || plan.placement.allocation.bytes
            != plan.content.logical_bytes || plan.placement.replicas.count == 0 {
            return Err(ObjectManagerError::InvalidPlan);
        }
        match self.catalog.resolve_pin_request(plan.pins) {
            Ok(pins) => Ok(pins),
            Err(_) => Err(ObjectManagerError::InvalidPlan),
        }
    }

    /// Runs a bounded maintenance round.
    pub fn maintenance(&mut self, pool: &mut SegmentPool, now: CatalogTick, budget: CollectBudget) -> (done: ObjectManagerMaintenance)
        requires
            old(self).wf(),
            old(pool).wf(),
        ensures
            final(self).wf(),
            final(pool).wf(),
            store_of(old(self)@, old(pool)@).maintained(
                store_of(final(self)@, final(pool)@),
                now,
                budget,
                Seq::empty(),
                done.catalog,
            ),
            done.expired_writes == done.catalog.expired_pending,
            done.memory_eviction == match final(self)@.eviction {
                Some(controller) => Some(controller.stats),
                None => None,
            },
    {
        let none: Vec<ReclaimTarget> = Vec::new();
        assert(none@ =~= Seq::empty());
        self.maintenance_with_targets(pool, now, budget, none)
    }

    /// Runs a bounded maintenance round that first evicts for given targets.
    pub fn maintenance_with_targets(
        &mut self,
        pool: &mut SegmentPool,
        now: CatalogTick,
        budget: CollectBudget,
        targets: Vec<ReclaimTarget>,
    ) -> (done: ObjectManagerMaintenance)
        requires
            old(self).wf(),
            old(pool).wf(),
        ensures
            final(self).wf(),
            final(pool).wf(),
            store_of(old(self)@, old(pool)@).maintained(
                store_of(final(self)@, final(pool)@),
                now,
                budget,
                targets@,
                done.catalog,
            ),
            done.expired_writes == done.catalog.expired_pending,
            done.memory_eviction == match final(self)@.eviction {
                Some(controller) => Some(controller.stats),
                None => None,
            },
    {
        let ghost given = targets@;
        let segment_epoch: u64 = pool.invalidation_epoch();
        if self.observed_segment_epoch != segment_epoch {
            self.catalog.request_liveness_scan();
        }
        self.observed_segment_epoch = segment_epoch;
        let mut targets = targets;
        if let Some(found) = self.memory_eviction {
            let mut controller = found;
            let bytes: u64 = controller.prepare_step(
                pool.space_for(ReplicaClass::Memory),
                self.catalog.stats(),
            );
            self.memory_eviction = Some(controller);
            targets.push(
                ReclaimTarget { filter: ReclaimFilter::Class(ReplicaClass::Memory), bytes },
            );
        }
        let report = self.catalog.collect_step_with_targets(pool, now, budget, targets.as_slice());
        if let Some(found) = self.memory_eviction {
            let mut controller = found;
            let _ = controller.finish_step(
                pool.space_for(ReplicaClass::Memory),
                self.catalog.stats(),
                report,
            );
            self.memory_eviction = Some(controller);
        }
        ObjectManagerMaintenance {
            expired_writes: report.expired_pending,
            catalog: report,
            memory_eviction: self.memory_eviction_stats(),
        }
    }

    /// Runs the round that follows a failed allocation. Returns whether it made
    /// enough room to try again.
    fn evict_after_allocation_failure(
        &mut self,
        pool: &mut SegmentPool,
        shortfall: AllocationShortfall,
        now: CatalogTick,
    ) -> (progress: bool)
        requires
            old(self).wf(),
            old(pool).wf(),
            old(self)@.eviction is Some,
        ensures
            final(self).wf(),
            final(pool).wf(),
            final(self)@.eviction is Some,
            final(self)@.retry_limit() == old(self)@.retry_limit(),
            store_of(old(self)@, old(pool)@).evicted_for(
                store_of(final(self)@, final(pool)@),
                shortfall,
                now,
                progress,
            ),
    {
        let ghost before = store_of(self@, pool@);
        let mut controller = match self.memory_eviction {
            Some(controller) => controller,
            None => {
                assert(false);
                return false;
            },
        };
        let _ = controller.request_allocation_reclaim(shortfall.reclaim_bytes);
        let budget = controller.config.allocation_failure_budget;
        self.memory_eviction = Some(controller);
        assert(store_of(self@, pool@) == before.failure_noted(shortfall));
        let space_before = pool.space_for(ReplicaClass::Memory);
        let done = self.maintenance(pool, now, budget);
        let report = done.catalog;
        let space = pool.space_for(ReplicaClass::Memory);
        let progress = !report.busy && space.largest_free_region_bytes
            >= shortfall.allocation_bytes && (report.reclaimed_memory_bytes != 0
            || space.used_bytes < space_before.used_bytes || space.largest_free_region_bytes
            > space_before.largest_free_region_bytes);
        proof {
            let after = store_of(self@, pool@);
            assert(before.failure_noted(shortfall).maintained(
                after,
                now,
                budget,
                Seq::empty(),
                report,
            ));
            assert(progress == before.made_room(after, shortfall, report));
        }
        progress
    }

    fn clear_allocation_reclaim(&mut self, generation: Option<u64>)
        requires
            old(self).wf(),
        ensures
            final(self).wf(),
            final(self)@ == old(self)@.settled(generation),
    {
        if let Some(found) = self.memory_eviction {
            if let Some(generation) = generation {
                let mut controller = found;
                controller.clear_allocation_reclaim(generation);
                self.memory_eviction = Some(controller);
            }
        }
    }

    fn record_allocation_retry(&mut self, success: bool)
        requires
            old(self).wf(),
        ensures
            final(self).wf(),
            final(self)@ == old(self)@.retry_counted(success),
            final(self)@.retry_limit() == old(self)@.retry_limit(),
    {
        if let Some(found) = self.memory_eviction {
            let mut controller = found;
            if success {
                controller.record_allocation_retry_success();
            } else {
                controller.record_allocation_retry();
            }
            self.memory_eviction = Some(controller);
        }
    }
}

impl ObjectManager {
    /// Claims an object and places its replicas, with bounded retries under
    /// memory pressure.
    pub(super) fn prepare_write(
        &mut self,
        pool: &mut SegmentPool,
        identity: &ObjectIdentity,
        admission: WriteAdmission,
        plan: &ObjectPutPlan,
        mode: WriteMode,
        pins: ResolvedObjectPinRequest,
        now: CatalogTick,
    ) -> (prepared: Result<PreparedPut, ObjectManagerError>)
        requires
            old(self).wf(),
            old(pool).wf(),
        ensures
            final(self).wf(),
            final(pool).wf(),
            store_of(old(self)@, old(pool)@).prepared(
                store_of(final(self)@, final(pool)@),
                (PutRequest { name: identity@, admission, plan: *plan, mode, pins, now }),
                0,
                None,
                prepared,
            ),
    {
        let ghost request = PutRequest {
            name: identity@,
            admission,
            plan: *plan,
            mode,
            pins,
            now,
        };
        let ghost origin = store_of(self@, pool@);
        let retry_limit: usize = match &self.memory_eviction {
            Some(controller) => controller.config.allocation_retry_limit,
            None => 0,
        };
        let mut retries: usize = 0;
        let mut generation: Option<u64> = None;
        let ghost mut round: nat = 0;
        loop
            invariant
                self.wf(),
                pool.wf(),
                request == (PutRequest { name: identity@, admission, plan: *plan, mode, pins, now }),
                origin == store_of(old(self)@, old(pool)@),
                round == retries,
                retries <= retry_limit,
                retry_limit == self@.retry_limit(),
                forall|end: Store, outcome: Result<PreparedPut, ObjectManagerError>|
                    (#[trigger] store_of(self@, pool@).prepared(
                        end,
                        request,
                        round,
                        generation,
                        outcome,
                    )) ==> origin.prepared(end, request, 0, None, outcome),
            decreases retry_limit - retries,
        {
            let ghost here = store_of(self@, pool@);
            let ghost known = generation;
            let step = self.try_write(
                pool,
                identity,
                admission,
                plan,
                mode,
                pins,
                now,
                retries,
                retry_limit,
                &mut generation,
            );
            match step {
                PutStep::Done(outcome) => return outcome,
                PutStep::Again => {
                    proof {
                        let next = store_of(self@, pool@);
                        let last = round;
                        round = round + 1;
                        assert((retries + 1) as nat == round);
                        assert forall|end: Store, outcome: Result<PreparedPut, ObjectManagerError>|
                            (#[trigger] next.prepared(
                                end,
                                request,
                                round,
                                generation,
                                outcome,
                            )) implies origin.prepared(end, request, 0, None, outcome) by {
                            assert(next.prepared(
                                end,
                                request,
                                (retries + 1) as nat,
                                generation,
                                outcome,
                            ));
                            assert(here.prepared(end, request, last, known, outcome));
                        }
                    }
                    retries = retries + 1;
                },
            }
        }
    }

    /// One try of a write.
    fn try_write(
        &mut self,
        pool: &mut SegmentPool,
        identity: &ObjectIdentity,
        admission: WriteAdmission,
        plan: &ObjectPutPlan,
        mode: WriteMode,
        pins: ResolvedObjectPinRequest,
        now: CatalogTick,
        retries: usize,
        retry_limit: usize,
        generation: &mut Option<u64>,
    ) -> (step: PutStep)
        requires
            old(self).wf(),
            old(pool).wf(),
            retries <= retry_limit,
            retry_limit == old(self)@.retry_limit(),
        ensures
            final(self).wf(),
            final(pool).wf(),
            ({
                let request = PutRequest {
                    name: identity@,
                    admission,
                    plan: *plan,
                    mode,
                    pins,
                    now,
                };
                let before = store_of(old(self)@, old(pool)@);
                let after = store_of(final(self)@, final(pool)@);
                match step {
                    PutStep::Done(outcome) => before.prepared(
                        after,
                        request,
                        retries as nat,
                        *old(generation),
                        outcome,
                    ),
                    PutStep::Again => {
                        &&& retries < retry_limit
                        &&& final(self)@.retry_limit() == old(self)@.retry_limit()
                        &&& forall|end: Store, outcome: Result<PreparedPut, ObjectManagerError>|
                            (#[trigger] after.prepared(
                                end,
                                request,
                                (retries + 1) as nat,
                                *final(generation),
                                outcome,
                            )) ==> before.prepared(
                                end,
                                request,
                                retries as nat,
                                *old(generation),
                                outcome,
                            )
                    },
                }
            }),
    {
        let ghost request = PutRequest {
            name: identity@,
            admission,
            plan: *plan,
            mode,
            pins,
            now,
        };
        let ghost before = store_of(self@, pool@);
        let claim = match self.catalog.begin_write_resolved(
            identity.duplicate(),
            admission,
            mode,
            pins,
            now,
        ) {
            Ok(claim) => claim,
            Err(error) => {
                self.clear_allocation_reclaim(*generation);
                let outcome = Err(ObjectManagerError::from(error));
                proof {
                    lemma_begin_failed(
                        before,
                        store_of(self@, pool@),
                        request,
                        retries as nat,
                        *generation,
                        error,
                        outcome,
                    );
                }
                return PutStep::Done(outcome);
            },
        };
        let ghost claimed = self.catalog@;
        let placed = self.allocator.reserve(pool, &plan.placement);
        let ghost attempt = PutTry { claim, claimed, pool: pool@, placed };
        assert(before.can_try(request, attempt));
        let shortfall = match &placed {
            Ok(set) => if set.len() == 0 {
                Some(allocation_shortfall(plan, plan.placement.replicas.count, 0))
            } else {
                None
            },
            Err(PlacementError::InsufficientReplicas { requested, allocated }) => Some(
                allocation_shortfall(plan, *requested, *allocated),
            ),
            Err(_) => None,
        };
        assert(shortfall == attempt.shortfall(*plan));
        if let Some(shortfall) = shortfall {
            self.catalog.drop_claim(pool, claim);
            let ghost dropped = before.try_dropped(request, attempt);
            assert(store_of(self@, pool@) == dropped);
            if self.memory_eviction.is_none() {
                let outcome = Err(ObjectManagerError::NoAvailableReplicas);
                proof {
                    lemma_try_without_eviction(
                        before,
                        dropped,
                        request,
                        retries as nat,
                        *generation,
                        attempt,
                        outcome,
                    );
                }
                return PutStep::Done(outcome);
            }
            let progress = self.evict_after_allocation_failure(pool, shortfall, now);
            let ghost middle = store_of(self@, pool@);
            let ghost before_generation = *generation;
            *generation = match &self.memory_eviction {
                Some(controller) => Some(controller.allocation_generation),
                None => None,
            };
            if retries >= retry_limit || !progress {
                let outcome = Err(ObjectManagerError::NoAvailableReplicas);
                proof {
                    lemma_try_given_up(
                        before,
                        middle,
                        request,
                        retries as nat,
                        before_generation,
                        attempt,
                        progress,
                        outcome,
                    );
                }
                return PutStep::Done(outcome);
            }
            self.record_allocation_retry(false);
            proof {
                let next = store_of(self@, pool@);
                assert(next == (Store { manager: middle.manager.retry_counted(false), ..middle }));
                assert forall|end: Store, outcome: Result<PreparedPut, ObjectManagerError>|
                    (#[trigger] next.prepared(
                        end,
                        request,
                        (retries + 1) as nat,
                        *generation,
                        outcome,
                    )) implies before.prepared(
                    end,
                    request,
                    retries as nat,
                    before_generation,
                    outcome,
                ) by {
                    lemma_try_again(
                        before,
                        middle,
                        end,
                        request,
                        retries as nat,
                        before_generation,
                        attempt,
                        progress,
                        outcome,
                    );
                }
            }
            return PutStep::Again;
        }
        let set = match placed {
            Ok(set) => set,
            Err(error) => {
                self.catalog.drop_claim(pool, claim);
                self.clear_allocation_reclaim(*generation);
                let outcome = Err(ObjectManagerError::from(error));
                proof {
                    lemma_try_failed(
                        before,
                        store_of(self@, pool@),
                        request,
                        retries as nat,
                        *generation,
                        attempt,
                        outcome,
                    );
                }
                return PutStep::Done(outcome);
            },
        };
        if set.len() as u64 > u32::MAX as u64 {
            self.catalog.drop_claim(pool, claim);
            self.clear_allocation_reclaim(*generation);
            pool.release_batch(set.into_vec());
            let outcome = Err(ObjectManagerError::Internal);
            proof {
                lemma_try_too_many(
                    before,
                    store_of(self@, pool@),
                    request,
                    retries as nat,
                    *generation,
                    attempt,
                    outcome,
                );
            }
            return PutStep::Done(outcome);
        }
        let replicas = ReplicaSet::from_reservations(set);
        self.clear_allocation_reclaim(*generation);
        if retries != 0 {
            self.record_allocation_retry(true);
        }
        let outcome = Ok(PreparedPut { content: plan.content, claim, replicas });
        proof {
            lemma_try_succeeded(
                before,
                store_of(self@, pool@),
                request,
                retries as nat,
                *generation,
                attempt,
                outcome,
            );
        }
        PutStep::Done(outcome)
    }

    /// Stages a prepared write. Replicas that cannot be staged are given back.
    pub(super) fn finalize_start_put(
        &mut self,
        pool: &mut SegmentPool,
        sessions: &ClientRegistry,
        prepared: PreparedPut,
        accounting: Option<QuotaReservationGuard>,
    ) -> (started: Result<StartedPut, ObjectManagerError>)
        requires
            old(self).wf(),
            old(pool).wf(),
            accounting is Some ==> prepared.content.logical_bytes * prepared.replicas@.len()
                <= u64::MAX,
            prepared.claim.catalog_id == old(self)@.catalog.catalog_id,
        ensures
            final(self).wf(),
            final(pool).wf(),
            store_of(old(self)@, old(pool)@).finalized(
                store_of(final(self)@, final(pool)@),
                sessions@,
                prepared.claim,
                prepared.content,
                prepared.replicas@,
                accounting,
                started,
            ),
    {
        let ghost before = self@;
        let PreparedPut { content, claim, replicas } = prepared;
        let ghost held = replicas@;
        let described = started_put(replicas.replicas());
        let staged = match accounting {
            Some(reservation) => claim.stage_accounted(
                &mut self.catalog,
                pool,
                sessions,
                content,
                replicas,
                reservation,
            ),
            None => claim.stage(&mut self.catalog, pool, sessions, content, replicas),
        };
        match staged {
            Ok(transaction) => {
                self.catalog.release_transaction(transaction);
                Ok(described)
            },
            Err(failure) => {
                let StageFailure { error, replicas } = failure;
                let mut ranges: Vec<Reservation> = Vec::new();
                replicas.append_reclaim_resources(&mut ranges);
                assert(ranges@ =~= reservations_of(held));
                pool.release_batch(ranges);
                Err(ObjectManagerError::from(error))
            },
        }
    }

    /// Gives a prepared write up, with its replicas.
    pub(super) fn abandon_put(&mut self, pool: &mut SegmentPool, prepared: PreparedPut)
        requires
            old(self).wf(),
            old(pool).wf(),
            prepared.claim.catalog_id == old(self)@.catalog.catalog_id,
        ensures
            final(self).wf(),
            final(pool).wf(),
            store_of(old(self)@, old(pool)@).abandoned(
                store_of(final(self)@, final(pool)@),
                prepared.claim,
                prepared.replicas@,
            ),
    {
        let PreparedPut { content: _, claim, replicas } = prepared;
        let ghost held = replicas@;
        self.catalog.drop_claim(pool, claim);
        let mut ranges: Vec<Reservation> = Vec::new();
        replicas.append_reclaim_resources(&mut ranges);
        assert(ranges@ =~= reservations_of(held));
        pool.release_batch(ranges);
    }

    /// Looks objects up one after the other.
    pub(super) fn get_batch(
        &mut self,
        pool: &SegmentPool,
        lookups: &Vec<ObjectLookup<'_>>,
        now: CatalogTick,
    ) -> (found: Vec<Result<ObjectRead, LookupError>>)
        requires
            old(self).wf(),
            pool.wf(),
        ensures
            final(self).wf(),
            found@.len() == lookups@.len(),
            exists|trail: Seq<CatalogView>|
                {
                    &&& #[trigger] batch_trail(trail, pool@, names_of(lookups@), now, found@)
                    &&& trail[0] == old(self)@.catalog
                    &&& trail.last() == final(self)@.catalog
                },
            final(self)@ == (ManagerView { catalog: final(self)@.catalog, ..old(self)@ }),
    {
        let mut found: Vec<Result<ObjectRead, LookupError>> = Vec::new();
        self.catalog.get_batch_into(pool, lookups, now, &mut found);
        assert(found@.skip(0) =~= found@);
        found
    }

    /// Asks for bytes to be reclaimed by the next maintenance rounds.
    pub(super) fn request_reclaim(&mut self, bytes: u64)
        requires
            old(self).wf(),
        ensures
            final(self).wf(),
            final(self)@ == (ManagerView {
                catalog: CatalogView {
                    reclaim_debt: if old(self)@.catalog.reclaim_debt < bytes {
                        bytes
                    } else {
                        old(self)@.catalog.reclaim_debt
                    },
                    ..old(self)@.catalog
                },
                ..old(self)@
            }),
    {
        self.catalog.request_reclaim(bytes);
    }

    /// The accounts of a tenant.
    pub fn tenant_accounts(&self, tenant: u64) -> (accounts: TenantAccounts)
        ensures
            accounts == self@.catalog.accounts[tenant],
    {
        self.catalog.tenant_accounts(tenant)
    }

    pub(super) fn set_tenant_accounts(&mut self, tenant: u64, accounts: TenantAccounts)
        requires
            old(self).wf(),
        ensures
            final(self).wf(),
            final(self)@ == (ManagerView {
                catalog: old(self)@.catalog.with_tenant(tenant, accounts),
                ..old(self)@
            }),
    {
        self.catalog.set_tenant_accounts(tenant, accounts);
    }

    /// Admits `bytes` more for a tenant.
    pub(super) fn reserve_quota(&mut self, tenant: u64, class: TenantResourceClass, bytes: u64) -> (reserved: Result<
        QuotaReservationGuard,
        TenantObjectError,
    >)
        requires
            old(self).wf(),
        ensures
            final(self).wf(),
            ({
                let account = old(self)@.catalog.accounts[tenant].of(class);
                match reserved {
                    Ok(guard) => {
                        &&& account.admits(bytes)
                        &&& guard == (QuotaReservationGuard { tenant, class, bytes })
                        &&& final(self)@ == (ManagerView {
                            catalog: old(self)@.catalog.admitted(tenant, class, bytes),
                            ..old(self)@
                        })
                    },
                    Err(error) => {
                        &&& !account.admits(bytes)
                        &&& error == account.refusal(class, bytes)
                        &&& final(self)@ == old(self)@
                    },
                }
            }),
    {
        self.catalog.reserve_quota(tenant, class, bytes)
    }

    /// Changes how much is reserved.
    pub(super) fn resize_quota(&mut self, guard: &mut QuotaReservationGuard, bytes: u64) -> (done: Result<
        (),
        TenantObjectError,
    >)
        requires
            old(self).wf(),
        ensures
            final(self).wf(),
            done == old(self)@.catalog.resize_result(*old(guard), bytes),
            final(self)@ == (ManagerView {
                catalog: old(self)@.catalog.resized(*old(guard), bytes),
                ..old(self)@
            }),
            *final(guard) == (QuotaReservationGuard {
                bytes: if done is Ok {
                    bytes
                } else {
                    old(guard).bytes
                },
                ..*old(guard)
            }),
    {
        self.catalog.resize_quota(guard, bytes)
    }

    /// Rolls an admission back.
    pub(super) fn release_quota(&mut self, guard: QuotaReservationGuard)
        requires
            old(self).wf(),
        ensures
            final(self).wf(),
            final(self)@ == (ManagerView {
                catalog: old(self)@.catalog.given_back(guard.tenant, guard.class, guard.bytes),
                ..old(self)@
            }),
    {
        self.catalog.release_quota(guard);
    }

    fn start_write(
        &mut self,
        pool: &mut SegmentPool,
        sessions: &ClientRegistry,
        identity: ObjectIdentity,
        admission: WriteAdmission,
        plan: &ObjectPutPlan,
        mode: WriteMode,
        now: CatalogTick,
    ) -> (started: Result<StartedPut, ObjectManagerError>)
        requires
            old(self).wf(),
            old(pool).wf(),
        ensures
            final(self).wf(),
            final(pool).wf(),
            store_of(old(self)@, old(pool)@).started(
                store_of(final(self)@, final(pool)@),
                sessions@,
                identity@,
                admission,
                *plan,
                mode,
                now,
                started,
            ),
    {
        let ghost before = store_of(self@, pool@);
        let pins = match self.validate_plan(plan) {
            Ok(pins) => pins,
            Err(error) => return Err(error),
        };
        let ghost request = PutRequest {
            name: identity@,
            admission,
            plan: *plan,
            mode,
            pins,
            now,
        };
        let prepared = self.prepare_write(pool, &identity, admission, plan, mode, pins, now);
        let ghost middle = store_of(self@, pool@);
        assert(before.prepared(middle, request, 0, None, prepared));
        match prepared {
            Err(error) => Err(error),
            Ok(put) => {
                proof {
                    lemma_prepared_claim(before, middle, request, 0, None, Ok(put));
                }
                self.finalize_start_put(pool, sessions, put, None)
            },
        }
    }

    /// Starts the write of an object that does not exist yet.
    pub fn start_put(
        &mut self,
        pool: &mut SegmentPool,
        sessions: &ClientRegistry,
        identity: ObjectIdentity,
        admission: WriteAdmission,
        plan: &ObjectPutPlan,
        now: CatalogTick,
    ) -> (started: Result<StartedPut, ObjectManagerError>)
        requires
            old(self).wf(),
            old(pool).wf(),
        ensures
            final(self).wf(),
            final(pool).wf(),
            store_of(old(self)@, old(pool)@).started(
                store_of(final(self)@, final(pool)@),
                sessions@,
                identity@,
                admission,
                *plan,
                WriteMode::Insert,
                now,
                started,
            ),
    {
        self.start_write(pool, sessions, identity, admission, plan, WriteMode::Insert, now)
    }

    /// Starts the write of an object that may exist already. What exists stays
    /// readable until the write is finished.
    pub fn start_upsert(
        &mut self,
        pool: &mut SegmentPool,
        sessions: &ClientRegistry,
        identity: ObjectIdentity,
        admission: WriteAdmission,
        plan: &ObjectPutPlan,
        now: CatalogTick,
    ) -> (started: Result<StartedPut, ObjectManagerError>)
        requires
            old(self).wf(),
            old(pool).wf(),
        ensures
            final(self).wf(),
            final(pool).wf(),
            store_of(old(self)@, old(pool)@).started(
                store_of(final(self)@, final(pool)@),
                sessions@,
                identity@,
                admission,
                *plan,
                WriteMode::Upsert,
                now,
                started,
            ),
    {
        self.start_write(pool, sessions, identity, admission, plan, WriteMode::Upsert, now)
    }
}

proof fn lemma_begin_failed(
    before: Store,
    after: Store,
    request: PutRequest,
    retries: nat,
    generation: Option<u64>,
    error: BeginError,
    outcome: Result<PreparedPut, ObjectManagerError>,
)
    requires
        before.manager.catalog.begin_result(request.name, request.mode) == Err::<
            (u64, u64),
            BeginError,
        >(error),
        outcome == Err::<PreparedPut, ObjectManagerError>(ObjectManagerError::from_spec(error)),
        after == (Store { manager: before.manager.settled(generation), ..before }),
    ensures
        before.prepared(after, request, retries, generation, outcome),
{
    reveal(Store::prepared);
}

/// A try that can come about is one way in which a write is prepared.
proof fn lemma_tried(
    before: Store,
    after: Store,
    request: PutRequest,
    retries: nat,
    generation: Option<u64>,
    attempt: PutTry,
    outcome: Result<PreparedPut, ObjectManagerError>,
)
    requires
        before.can_try(request, attempt),
        before.tried(after, request, retries, generation, attempt, outcome),
    ensures
        before.prepared(after, request, retries, generation, outcome),
{
    reveal(Store::prepared);
    reveal(Store::tried);
    assert(before.manager.catalog.begin_result(request.name, request.mode) is Ok);
    assert(before.can_try(request, attempt) && before.tried(
        after,
        request,
        retries,
        generation,
        attempt,
        outcome,
    ));
}

proof fn lemma_try_without_eviction(
    before: Store,
    after: Store,
    request: PutRequest,
    retries: nat,
    generation: Option<u64>,
    attempt: PutTry,
    outcome: Result<PreparedPut, ObjectManagerError>,
)
    requires
        before.can_try(request, attempt),
        attempt.shortfall(request.plan) is Some,
        before.manager.eviction is None,
        outcome == Err::<PreparedPut, ObjectManagerError>(ObjectManagerError::NoAvailableReplicas),
        after == before.try_dropped(request, attempt),
    ensures
        before.prepared(after, request, retries, generation, outcome),
{
    reveal(Store::tried);
    lemma_tried(before, after, request, retries, generation, attempt, outcome);
}

proof fn lemma_try_given_up(
    before: Store,
    after: Store,
    request: PutRequest,
    retries: nat,
    generation: Option<u64>,
    attempt: PutTry,
    progress: bool,
    outcome: Result<PreparedPut, ObjectManagerError>,
)
    requires
        before.can_try(request, attempt),
        attempt.shortfall(request.plan) is Some,
        before.manager.eviction is Some,
        before.try_dropped(request, attempt).evicted_for(
            after,
            attempt.shortfall(request.plan).unwrap(),
            request.now,
            progress,
        ),
        retries >= before.manager.retry_limit() || !progress,
        outcome == Err::<PreparedPut, ObjectManagerError>(ObjectManagerError::NoAvailableReplicas),
    ensures
        before.prepared(after, request, retries, generation, outcome),
{
    reveal(Store::tried);
    lemma_tried(before, after, request, retries, generation, attempt, outcome);
}

proof fn lemma_try_again(
    before: Store,
    middle: Store,
    end: Store,
    request: PutRequest,
    retries: nat,
    generation: Option<u64>,
    attempt: PutTry,
    progress: bool,
    outcome: Result<PreparedPut, ObjectManagerError>,
)
    requires
        before.can_try(request, attempt),
        attempt.shortfall(request.plan) is Some,
        before.manager.eviction is Some,
        before.try_dropped(request, attempt).evicted_for(
            middle,
            attempt.shortfall(request.plan).unwrap(),
            request.now,
            progress,
        ),
        retries < before.manager.retry_limit(),
        progress,
        middle.manager.retry_counted(false).retry_limit() == before.manager.retry_limit(),
        (Store { manager: middle.manager.retry_counted(false), ..middle }).prepared(
            end,
            request,
            retries + 1,
            Some(middle.manager.eviction.unwrap().allocation_generation),
            outcome,
        ),
    ensures
        before.prepared(end, request, retries, generation, outcome),
{
    reveal(Store::prepared);
    reveal(Store::tried);
    assert(before.tried(end, request, retries, generation, attempt, outcome));
    lemma_tried(before, end, request, retries, generation, attempt, outcome);
}

proof fn lemma_try_failed(
    before: Store,
    after: Store,
    request: PutRequest,
    retries: nat,
    generation: Option<u64>,
    attempt: PutTry,
    outcome: Result<PreparedPut, ObjectManagerError>,
)
    requires
        before.can_try(request, attempt),
        attempt.shortfall(request.plan) is None,
        attempt.placed is Err,
        outcome == Err::<PreparedPut, ObjectManagerError>(
            ObjectManagerError::from_spec(attempt.placed->Err_0),
        ),
        ({
            let dropped = before.try_dropped(request, attempt);
            after == (Store { manager: dropped.manager.settled(generation), ..dropped })
        }),
    ensures
        before.prepared(after, request, retries, generation, outcome),
{
    reveal(Store::tried);
    lemma_tried(before, after, request, retries, generation, attempt, outcome);
}

proof fn lemma_try_too_many(
    before: Store,
    after: Store,
    request: PutRequest,
    retries: nat,
    generation: Option<u64>,
    attempt: PutTry,
    outcome: Result<PreparedPut, ObjectManagerError>,
)
    requires
        before.can_try(request, attempt),
        attempt.shortfall(request.plan) is None,
        attempt.placed is Ok,
        attempt.placed.unwrap()@.len() > u32::MAX,
        outcome == Err::<PreparedPut, ObjectManagerError>(ObjectManagerError::Internal),
        ({
            let dropped = before.try_dropped(request, attempt);
            &&& after.manager == dropped.manager.settled(generation)
            &&& dropped.pool.released_all(after.pool, attempt.placed.unwrap()@)
        }),
    ensures
        before.prepared(after, request, retries, generation, outcome),
{
    reveal(Store::tried);
    lemma_tried(before, after, request, retries, generation, attempt, outcome);
}

proof fn lemma_try_succeeded(
    before: Store,
    after: Store,
    request: PutRequest,
    retries: nat,
    generation: Option<u64>,
    attempt: PutTry,
    outcome: Result<PreparedPut, ObjectManagerError>,
)
    requires
        before.can_try(request, attempt),
        attempt.shortfall(request.plan) is None,
        attempt.placed is Ok,
        attempt.placed.unwrap()@.len() <= u32::MAX,
        outcome matches Ok(put) && put.claim == attempt.claim && put.content
            == request.plan.content && put.replicas@ == numbered(attempt.placed.unwrap()@),
        ({
            let kept = before.manager.settled(generation);
            after == (Store {
                manager: ManagerView {
                    catalog: attempt.claimed,
                    ..if retries > 0 {
                        kept.retry_counted(true)
                    } else {
                        kept
                    }
                },
                pool: attempt.pool,
            })
        }),
    ensures
        before.prepared(after, request, retries, generation, outcome),
{
    reveal(Store::tried);
    lemma_tried(before, after, request, retries, generation, attempt, outcome);
}

/// A write that was prepared holds a claim of this catalog.
pub proof fn lemma_prepared_claim(
    before: Store,
    after: Store,
    request: PutRequest,
    retries: nat,
    generation: Option<u64>,
    outcome: Result<PreparedPut, ObjectManagerError>,
)
    requires
        before.prepared(after, request, retries, generation, outcome),
        outcome is Ok,
    ensures
        outcome.unwrap().claim.catalog_id == before.manager.catalog.catalog_id,
        after.manager.catalog.catalog_id == before.manager.catalog.catalog_id,
        after.manager.catalog.config == before.manager.catalog.config,
        outcome.unwrap().claim.admission == request.admission,
        outcome.unwrap().content == request.plan.content,
        0 < outcome.unwrap().replicas@.len() <= u32::MAX,
    decreases before.manager.retry_limit() - retries,
{
    reveal(Store::prepared);
    reveal(Store::tried);
    assert(before.manager.catalog.begin_result(request.name, request.mode) is Ok);
    let attempt = choose|attempt: PutTry| #[trigger]
        before.can_try(request, attempt) && before.tried(
            after,
            request,
            retries,
            generation,
            attempt,
            outcome,
        );
    let dropped = before.try_dropped(request, attempt);
    match attempt.shortfall(request.plan) {
        Some(shortfall) => {
            assert(before.manager.eviction is Some);
            let (middle, progress) = choose|middle: Store, progress: bool|
                {
                    &&& #[trigger] dropped.evicted_for(middle, shortfall, request.now, progress)
                    &&& if retries >= before.manager.retry_limit() || !progress {
                        &&& outcome == Err::<PreparedPut, ObjectManagerError>(
                            ObjectManagerError::NoAvailableReplicas,
                        )
                        &&& after == middle
                    } else {
                        let next = Store {
                            manager: middle.manager.retry_counted(false),
                            ..middle
                        };
                        &&& next.manager.retry_limit() == before.manager.retry_limit()
                        &&& next.prepared(
                            after,
                            request,
                            retries + 1,
                            Some(middle.manager.eviction.unwrap().allocation_generation),
                            outcome,
                        )
                    }
                };
            let next = Store { manager: middle.manager.retry_counted(false), ..middle };
            lemma_prepared_claim(
                next,
                after,
                request,
                retries + 1,
                Some(middle.manager.eviction.unwrap().allocation_generation),
                outcome,
            );
            lemma_evicted_ids(dropped, middle, shortfall, request.now, progress);
        },
        None => {},
    }
}

/// A maintenance round leaves the catalog the same catalog.
proof fn lemma_evicted_ids(
    before: Store,
    after: Store,
    shortfall: AllocationShortfall,
    now: CatalogTick,
    progress: bool,
)
    requires
        before.evicted_for(after, shortfall, now, progress),
    ensures
        after.manager.catalog.catalog_id == before.manager.catalog.catalog_id,
        after.manager.catalog.config == before.manager.catalog.config,
{
    let noted = before.failure_noted(shortfall);
    let catalog = noted.manager.noticed(noted.pool);
    super::catalog::laws::lemma_collected_ids(
        catalog,
        noted.pool,
        now,
        before.manager.eviction.unwrap().config.allocation_failure_budget,
        noted.manager.pressed_targets(noted.pool, Seq::empty()),
    );
}

/// Why a client may not finish or revoke a write.
pub open spec fn access_fault(
    actual: WriteOwner,
    has_replica: bool,
    owner: WriteOwner,
    selector: ReplicaSelector,
) -> Option<ObjectManagerError> {
    if actual != owner {
        Some(ObjectManagerError::IllegalOwner)
    } else if !has_replica {
        Some(ObjectManagerError::Internal)
    } else {
        match selector {
            ReplicaSelector::All => None,
            ReplicaSelector::Class(requested) => if requested == ReplicaClass::Memory {
                None
            } else {
                Some(
                    ObjectManagerError::ReplicaClassMismatch {
                        requested,
                        actual: ReplicaClass::Memory,
                    },
                )
            },
        }
    }
}

fn check_access(actual: WriteOwner, has_replica: bool, owner: WriteOwner, selector: ReplicaSelector) -> (checked: Result<
    (),
    ObjectManagerError,
>)
    ensures
        checked == match access_fault(actual, has_replica, owner, selector) {
            Some(fault) => Err::<(), ObjectManagerError>(fault),
            None => Ok(()),
        },
{
    if actual != owner {
        return Err(ObjectManagerError::IllegalOwner);
    }
    if !has_replica {
        return Err(ObjectManagerError::Internal);
    }
    match selector {
        ReplicaSelector::All => Ok(()),
        ReplicaSelector::Class(requested) => {
            if requested == ReplicaClass::Memory {
                Ok(())
            } else {
                Err(
                    ObjectManagerError::ReplicaClassMismatch {
                        requested,
                        actual: ReplicaClass::Memory,
                    },
                )
            }
        },
    }
}

/// A commit without a checksum.
pub open spec fn plain_commit() -> ObjectCommit {
    ObjectCommit { checksum: None }
}

impl CatalogView {
    /// Why a client may not finish or revoke the write or the version at a
    /// place. A committed version needs a replica that can still be read.
    pub open spec fn write_fault(
        self,
        pool: PoolView,
        place: (u64, u64, bool),
        owner: WriteOwner,
        selector: ReplicaSelector,
    ) -> Option<ObjectManagerError> {
        let version = self.versions[(place.0, place.1)];
        let has_replica = if place.2 {
            version.replicas.len() > 0
        } else {
            has_live(version.replicas, pool)
        };
        access_fault(version.owner, has_replica, owner, selector)
    }

    /// What finishing a write comes to. Finishing what is already committed
    /// changes nothing and succeeds.
    pub open spec fn finish_result(
        self,
        pool: PoolView,
        name: (u64, Seq<char>),
        owner: WriteOwner,
        selector: ReplicaSelector,
    ) -> Result<(), ObjectManagerError> {
        match self.resolve_result(name) {
            Err(LookupError::NotFound) => Err(ObjectManagerError::NotFound),
            Err(LookupError::NotReady) => Err(ObjectManagerError::InvalidWrite),
            Ok(place) => match self.write_fault(pool, place, owner, selector) {
                Some(fault) => Err(fault),
                None => if place.2 && self.commit_path(
                    pool,
                    self.catalog_id,
                    place.0,
                    place.1,
                    plain_commit(),
                ) is Fails {
                    Err(ObjectManagerError::NoAvailableReplicas)
                } else {
                    Ok(())
                },
            },
        }
    }

    /// The catalog after a write was finished.
    pub open spec fn finished(
        self,
        pool: PoolView,
        name: (u64, Seq<char>),
        owner: WriteOwner,
        selector: ReplicaSelector,
        now: CatalogTick,
    ) -> CatalogView {
        match (self.finish_result(pool, name, owner, selector), self.resolve_result(name)) {
            (Ok(()), Ok(place)) => if place.2 {
                self.published(place.0, plain_commit(), now).version_released(
                    self.catalog_id,
                    place.0,
                    place.1,
                )
            } else {
                self
            },
            _ => self,
        }
    }

    /// What revoking a write comes to.
    pub open spec fn revoke_result(
        self,
        pool: PoolView,
        name: (u64, Seq<char>),
        owner: WriteOwner,
        selector: ReplicaSelector,
    ) -> Result<(), ObjectManagerError> {
        match self.resolve_result(name) {
            Err(_) => Err(ObjectManagerError::NotFound),
            Ok(place) => match self.write_fault(pool, place, owner, selector) {
                Some(fault) => Err(fault),
                None => if place.2 {
                    Ok(())
                } else {
                    Err(ObjectManagerError::InvalidWrite)
                },
            },
        }
    }

    /// The catalog after a write was revoked.
    pub open spec fn write_revoked(
        self,
        pool: PoolView,
        name: (u64, Seq<char>),
        owner: WriteOwner,
        selector: ReplicaSelector,
        now: CatalogTick,
    ) -> CatalogView {
        match (self.revoke_result(pool, name, owner, selector), self.resolve_result(name)) {
            (Ok(()), Ok(place)) => self.abandoned(pool, place.0, now),
            _ => self,
        }
    }

    /// The catalog after objects were removed one after the other.
    pub open spec fn removed_all(
        self,
        names: Seq<(u64, Seq<char>)>,
        now: CatalogTick,
        force: bool,
    ) -> CatalogView
        decreases names.len(),
    {
        if names.len() == 0 {
            self
        } else {
            self.removed_all(names.drop_last(), now, force).removed(names.last(), now, force)
        }
    }

    /// How many of the objects were removed.
    pub open spec fn removed_count(
        self,
        names: Seq<(u64, Seq<char>)>,
        now: CatalogTick,
        force: bool,
    ) -> nat
        decreases names.len(),
    {
        if names.len() == 0 {
            0
        } else {
            let rest = self.removed_count(names.drop_last(), now, force);
            if self.removed_all(names.drop_last(), now, force).remove_result(
                names.last(),
                now,
                force,
            ) is Ok {
                rest + 1
            } else {
                rest
            }
        }
    }
}

/// The names of those identities that are selected.
pub open spec fn selected_names(identities: Seq<ObjectIdentity>, selected: Seq<bool>) -> Seq<
    (u64, Seq<char>),
>
    decreases identities.len(),
{
    if identities.len() == 0 {
        Seq::empty()
    } else {
        let rest = selected_names(identities.drop_last(), selected);
        if selected[identities.len() - 1] {
            rest.push(identities.last()@)
        } else {
            rest
        }
    }
}

#[verifier::external_type_specification]
#[verifier::external_body]
pub struct ExRegex(regex::Regex);

/// Whether a compiled expression matches somewhere in a text.
pub uninterp spec fn regex_accepts(regex: regex::Regex, text: Seq<char>) -> bool;

/// `Regex::is_match`: whether the expression matches somewhere in the text. The
/// answer depends on the compiled expression and the text alone.
#[verifier::external_body]
fn regex_is_match(regex: &regex::Regex, text: &str) -> (matched: bool)
    ensures
        matched == regex_accepts(*regex, text@),
{
    regex.is_match(text)
}

impl ObjectManager {
    /// Finishes a write at the start of the catalog's time.
    pub fn finish_put(
        &mut self,
        pool: &SegmentPool,
        identity: &ObjectIdentity,
        owner: WriteOwner,
        selector: ReplicaSelector,
    ) -> (finished: Result<(), ObjectManagerError>)
        requires
            old(self).wf(),
            pool.wf(),
        ensures
            final(self).wf(),
            finished == old(self)@.catalog.finish_result(pool@, identity@, owner, selector),
            final(self)@ == (ManagerView {
                catalog: old(self)@.catalog.finished(
                    pool@,
                    identity@,
                    owner,
                    selector,
                    (CatalogTick { value: 0 }),
                ),
                ..old(self)@
            }),
    {
        self.finish_put_at(pool, identity, owner, selector, CatalogTick::new(0))
    }

    /// Finishes a write using the supplied catalog time for commit-time pin
    /// changes.
    pub fn finish_put_at(
        &mut self,
        pool: &SegmentPool,
        identity: &ObjectIdentity,
        owner: WriteOwner,
        selector: ReplicaSelector,
        now: CatalogTick,
    ) -> (finished: Result<(), ObjectManagerError>)
        requires
            old(self).wf(),
            pool.wf(),
        ensures
            final(self).wf(),
            finished == old(self)@.catalog.finish_result(pool@, identity@, owner, selector),
            final(self)@ == (ManagerView {
                catalog: old(self)@.catalog.finished(pool@, identity@, owner, selector, now),
                ..old(self)@
            }),
    {
        self.finish_put_lookup_at(pool, identity.as_lookup(), owner, selector, now)
    }

    /// Finishes the write under a name.
    pub fn finish_put_lookup_at(
        &mut self,
        pool: &SegmentPool,
        lookup: ObjectLookup<'_>,
        owner: WriteOwner,
        selector: ReplicaSelector,
        now: CatalogTick,
    ) -> (finished: Result<(), ObjectManagerError>)
        requires
            old(self).wf(),
            pool.wf(),
        ensures
            final(self).wf(),
            finished == old(self)@.catalog.finish_result(pool@, lookup@, owner, selector),
            final(self)@ == (ManagerView {
                catalog: old(self)@.catalog.finished(pool@, lookup@, owner, selector, now),
                ..old(self)@
            }),
    {
        let ghost before = self.catalog@;
        proof {
            self.catalog.lemma_wf();
        }
        let (number, id, staged) = match self.catalog.find_write(lookup) {
            Ok(place) => place,
            Err(LookupError::NotFound) => return Err(ObjectManagerError::NotFound),
            Err(LookupError::NotReady) => return Err(ObjectManagerError::InvalidWrite),
        };
        proof {
            assert(before.index.contains_key(lookup@));
            assert(before.slot_wf(number));
        }
        let (actual, has_replica) = match self.catalog.write_facts(pool, number, id, !staged) {
            Some(facts) => facts,
            None => {
                assert(false);
                return Err(ObjectManagerError::Internal);
            },
        };
        if let Err(error) = check_access(actual, has_replica, owner, selector) {
            return Err(error);
        }
        if !staged {
            return Ok(());
        }
        match self.catalog.commit_at(pool, number, id, ObjectCommit::new(None), now) {
            Ok(handle) => {
                self.catalog.release_handle(handle);
                Ok(())
            },
            Err(_) => Err(ObjectManagerError::NoAvailableReplicas),
        }
    }

    /// Gives a write up.
    pub fn revoke_put(
        &mut self,
        pool: &SegmentPool,
        identity: &ObjectIdentity,
        owner: WriteOwner,
        selector: ReplicaSelector,
        now: CatalogTick,
    ) -> (revoked: Result<(), ObjectManagerError>)
        requires
            old(self).wf(),
            pool.wf(),
        ensures
            final(self).wf(),
            revoked == old(self)@.catalog.revoke_result(pool@, identity@, owner, selector),
            final(self)@ == (ManagerView {
                catalog: old(self)@.catalog.write_revoked(pool@, identity@, owner, selector, now),
                ..old(self)@
            }),
    {
        self.revoke_put_lookup(pool, identity.as_lookup(), owner, selector, now)
    }

    /// Gives the write under a name up.
    pub fn revoke_put_lookup(
        &mut self,
        pool: &SegmentPool,
        lookup: ObjectLookup<'_>,
        owner: WriteOwner,
        selector: ReplicaSelector,
        now: CatalogTick,
    ) -> (revoked: Result<(), ObjectManagerError>)
        requires
            old(self).wf(),
            pool.wf(),
        ensures
            final(self).wf(),
            revoked == old(self)@.catalog.revoke_result(pool@, lookup@, owner, selector),
            final(self)@ == (ManagerView {
                catalog: old(self)@.catalog.write_revoked(pool@, lookup@, owner, selector, now),
                ..old(self)@
            }),
    {
        let ghost before = self.catalog@;
        proof {
            self.catalog.lemma_wf();
        }
        let (number, id, staged) = match self.catalog.find_write(lookup) {
            Ok(place) => place,
            Err(_) => return Err(ObjectManagerError::NotFound),
        };
        proof {
            assert(before.index.contains_key(lookup@));
            assert(before.slot_wf(number));
        }
        let (actual, has_replica) = match self.catalog.write_facts(pool, number, id, !staged) {
            Some(facts) => facts,
            None => {
                assert(false);
                return Err(ObjectManagerError::Internal);
            },
        };
        if let Err(error) = check_access(actual, has_replica, owner, selector) {
            return Err(error);
        }
        if !staged {
            return Err(ObjectManagerError::InvalidWrite);
        }
        match self.catalog.abort_at(pool, number, id, now) {
            Ok(()) => Ok(()),
            Err(AbortError::TransactionGone) => Err(ObjectManagerError::NotFound),
            Err(AbortError::AlreadyCommitted) => Err(ObjectManagerError::InvalidWrite),
            Err(AbortError::ForeignCatalog) => Err(ObjectManagerError::Internal),
        }
    }

    /// Looks an object up.
    pub fn get(&mut self, pool: &SegmentPool, lookup: ObjectLookup<'_>, now: CatalogTick) -> (found: Result<
        ObjectRead,
        LookupError,
    >)
        requires
            old(self).wf(),
            pool.wf(),
        ensures
            final(self).wf(),
            final(self)@ == (ManagerView {
                catalog: old(self)@.catalog.after_get(pool@, lookup@, now),
                ..old(self)@
            }),
            old(self)@.catalog.get_matches(final(self)@.catalog, pool@, lookup@, found),
    {
        self.catalog.get(pool, lookup, now)
    }

    /// Gives back what a lookup returned.
    pub fn release_read(&mut self, read: ObjectRead)
        requires
            old(self).wf(),
        ensures
            final(self).wf(),
            final(self)@ == (ManagerView {
                catalog: old(self)@.catalog.version_released(
                    read.object.catalog_id,
                    read.object.slot,
                    read.object.origin.value,
                ),
                ..old(self)@
            }),
    {
        self.catalog.release_handle(read.object);
    }

    /// Whether an object can be read. Asking counts as a read.
    pub fn object_exists(&mut self, pool: &SegmentPool, lookup: ObjectLookup<'_>, now: CatalogTick) -> (found: bool)
        requires
            old(self).wf(),
            pool.wf(),
        ensures
            final(self).wf(),
            found == (old(self)@.catalog.get_result(pool@, lookup@) is Ok),
            final(self)@ == (ManagerView {
                catalog: match old(self)@.catalog.get_result(pool@, lookup@) {
                    Ok(place) => old(self)@.catalog.after_get(pool@, lookup@, now).version_released(
                        old(self)@.catalog.catalog_id,
                        place.0,
                        place.1,
                    ),
                    Err(_) => old(self)@.catalog.after_get(pool@, lookup@, now),
                },
                ..old(self)@
            }),
    {
        match self.get(pool, lookup, now) {
            Ok(read) => {
                self.release_read(read);
                true
            },
            Err(_) => false,
        }
    }

    /// Removes an object.
    pub fn remove(&mut self, lookup: ObjectLookup<'_>, now: CatalogTick, force: bool) -> (removed: Result<
        (),
        ObjectRemoveError,
    >)
        requires
            old(self).wf(),
        ensures
            final(self).wf(),
            removed == match old(self)@.catalog.remove_result(lookup@, now, force) {
                Ok(()) => Ok::<(), ObjectRemoveError>(()),
                Err(error) => Err(<ObjectRemoveError as FromSpec<RemoveError>>::from_spec(error)),
            },
            final(self)@ == (ManagerView {
                catalog: old(self)@.catalog.removed(lookup@, now, force),
                ..old(self)@
            }),
    {
        match self.catalog.remove_with_force(lookup, now, force) {
            Ok(()) => Ok(()),
            Err(error) => Err(ObjectRemoveError::from(error)),
        }
    }

    /// Removes objects one after the other.
    pub fn remove_batch(&mut self, lookups: &Vec<ObjectLookup<'_>>, now: CatalogTick, force: bool) -> (removed: Vec<
        Result<(), ObjectRemoveError>,
    >)
        requires
            old(self).wf(),
        ensures
            final(self).wf(),
            removed@.len() == lookups@.len(),
            forall|i: int|
                0 <= i < removed@.len() ==> (#[trigger] removed@[i]) == match old(
                    self,
                )@.catalog.removed_all(
                    names_of(lookups@).take(i),
                    now,
                    force,
                ).remove_result(lookups@[i]@, now, force) {
                    Ok(()) => Ok::<(), ObjectRemoveError>(()),
                    Err(error) => Err(
                        <ObjectRemoveError as FromSpec<RemoveError>>::from_spec(error),
                    ),
                },
            final(self)@ == (ManagerView {
                catalog: old(self)@.catalog.removed_all(
                    names_of(lookups@),
                    now,
                    force,
                ),
                ..old(self)@
            }),
    {
        let ghost before = self@;
        let ghost names = names_of(lookups@);
        let mut removed: Vec<Result<(), ObjectRemoveError>> = Vec::new();
        let mut i: usize = 0;
        assert(names.take(0) =~= Seq::empty());
        while i < lookups.len()
            invariant
                self.wf(),
                before == old(self)@,
                names == names_of(lookups@),
                i <= lookups@.len(),
                removed@.len() == i,
                self@ == (ManagerView {
                    catalog: before.catalog.removed_all(names.take(i as int), now, force),
                    ..before
                }),
                forall|j: int|
                    0 <= j < i ==> (#[trigger] removed@[j])
                        == match before.catalog.removed_all(
                        names.take(j),
                        now,
                        force,
                    ).remove_result(lookups@[j]@, now, force) {
                        Ok(()) => Ok::<(), ObjectRemoveError>(()),
                        Err(error) => Err(
                            <ObjectRemoveError as FromSpec<RemoveError>>::from_spec(error),
                        ),
                    },
            decreases lookups@.len() - i,
        {
            let one = self.remove(lookups[i], now, force);
            removed.push(one);
            proof {
                assert(names.take(i + 1).drop_last() =~= names.take(i as int));
                assert(names.take(i + 1).last() == lookups@[i as int]@);
            }
            i = i + 1;
        }
        assert(names.take(i as int) =~= names);
        removed
    }

    /// Removes those of the objects that are selected, and counts how many were
    /// removed.
    pub fn remove_selected(
        &mut self,
        identities: &Vec<ObjectIdentity>,
        selected: &Vec<bool>,
        now: CatalogTick,
        force: bool,
    ) -> (removed: usize)
        requires
            old(self).wf(),
            selected@.len() == identities@.len(),
        ensures
            final(self).wf(),
            removed == old(self)@.catalog.removed_count(
                selected_names(identities@, selected@),
                now,
                force,
            ),
            final(self)@ == (ManagerView {
                catalog: old(self)@.catalog.removed_all(
                    selected_names(identities@, selected@),
                    now,
                    force,
                ),
                ..old(self)@
            }),
    {
        let ghost before = self@;
        let mut removed: usize = 0;
        let mut i: usize = 0;
        assert(identities@.take(0) =~= Seq::empty());
        while i < identities.len()
            invariant
                self.wf(),
                before == old(self)@,
                selected@.len() == identities@.len(),
                i <= identities@.len(),
                removed <= i,
                removed == before.catalog.removed_count(
                    selected_names(identities@.take(i as int), selected@),
                    now,
                    force,
                ),
                self@ == (ManagerView {
                    catalog: before.catalog.removed_all(
                        selected_names(identities@.take(i as int), selected@),
                        now,
                        force,
                    ),
                    ..before
                }),
            decreases identities@.len() - i,
        {
            proof {
                let shorter = selected_names(identities@.take(i as int), selected@);
                assert(identities@.take(i + 1).drop_last() =~= identities@.take(i as int));
                assert(identities@.take(i + 1).last() == identities@[i as int]);
                assert(shorter.push(identities@[i as int]@).drop_last() =~= shorter);
            }
            if selected[i] {
                if self.remove(identities[i].as_lookup(), now, force).is_ok() {
                    removed = removed + 1;
                }
            }
            i = i + 1;
        }
        assert(identities@.take(i as int) =~= identities@);
        removed
    }

    /// Removes the committed objects of a namespace whose keys match a pattern,
    /// in no order that is known, and counts how many were removed.
    pub fn remove_matching(
        &mut self,
        namespace: NamespaceId,
        pattern: Option<&regex::Regex>,
        now: CatalogTick,
        force: bool,
    ) -> (removed: usize)
        requires
            old(self).wf(),
        ensures
            final(self).wf(),
            exists|identities: Seq<ObjectIdentity>, selected: Seq<bool>|
                {
                    &&& #[trigger] lists_namespace(old(self)@.catalog, namespace, identities)
                    &&& #[trigger] selects(pattern, identities, selected)
                    &&& removed == old(self)@.catalog.removed_count(
                        selected_names(identities, selected),
                        now,
                        force,
                    )
                    &&& final(self)@ == (ManagerView {
                        catalog: old(self)@.catalog.removed_all(
                            selected_names(identities, selected),
                            now,
                            force,
                        ),
                        ..old(self)@
                    })
                },
    {
        let identities = self.catalog.identities(namespace);
        let mut selected: Vec<bool> = Vec::new();
        let mut i: usize = 0;
        while i < identities.len()
            invariant
                i <= identities@.len(),
                selected@.len() == i,
                forall|j: int|
                    0 <= j < i ==> (#[trigger] selected@[j]) == is_selected(
                        pattern,
                        identities@[j],
                    ),
            decreases identities@.len() - i,
        {
            let keep = match pattern {
                None => true,
                Some(regex) => regex_is_match(regex, identities[i].key().as_str()),
            };
            selected.push(keep);
            i = i + 1;
        }
        proof {
            assert(lists_namespace(self@.catalog, namespace, identities@));
            assert(selects(pattern, identities@, selected@));
        }
        self.remove_selected(&identities, &selected, now, force)
    }

    /// Hands out the capability to revoke writes of fenced sessions.
    pub fn pending_write_revoker(&self) -> (revoker: PendingWriteRevoker)
        ensures
            revoker.catalog_id == self@.catalog.catalog_id,
    {
        PendingWriteRevoker { catalog_id: self.catalog.catalog_id() }
    }
}

/// Whether identities are the committed objects of a namespace, each once.
pub open spec fn lists_namespace(
    catalog: CatalogView,
    namespace: NamespaceId,
    identities: Seq<ObjectIdentity>,
) -> bool {
    &&& forall|i: int|
        0 <= i < identities.len() ==> {
            &&& (#[trigger] identities[i])@.0 == namespace.value
            &&& catalog.index.contains_key(identities[i]@)
            &&& catalog.slots[catalog.index[identities[i]@]].committed is Some
        }
    &&& forall|name: (u64, Seq<char>)| #[trigger]
        catalog.index.contains_key(name) && name.0 == namespace.value
            && catalog.slots[catalog.index[name]].committed is Some ==> exists|i: int|
            0 <= i < identities.len() && (#[trigger] identities[i])@ == name
    &&& forall|i: int, j: int|
        0 <= i < j < identities.len() ==> (#[trigger] identities[i])@ != (
        #[trigger] identities[j])@
}

/// Whether a pattern selects an object. No pattern selects every object.
pub open spec fn is_selected(pattern: Option<&regex::Regex>, identity: ObjectIdentity) -> bool {
    match pattern {
        None => true,
        Some(regex) => regex_accepts(*regex, identity.key@),
    }
}

/// Whether `selected` says which of the objects a pattern selects.
pub open spec fn selects(
    pattern: Option<&regex::Regex>,
    identities: Seq<ObjectIdentity>,
    selected: Seq<bool>,
) -> bool {
    &&& selected.len() == identities.len()
    &&& forall|i: int|
        0 <= i < selected.len() ==> (#[trigger] selected[i]) == is_selected(pattern, identities[i])
}

/// Narrow capability for revoking pending writes after their sessions fence.
#[derive(Clone, Copy, Debug, Eq, PartialEq, Structural)]
pub struct PendingWriteRevoker {
    pub catalog_id: u64,
}

/// The owners of the writes of sessions.
pub open spec fn owners_of(sessions: Seq<ClientSession>) -> Seq<WriteOwner> {
    sessions.map_values(|session: ClientSession| WriteOwner::of(session))
}

impl PendingWriteRevoker {
    /// Revokes pending writes for multiple fenced sessions with one pass over
    /// the manager's catalog. Another manager's writes are left alone.
    pub fn revoke_sessions(
        &self,
        manager: &mut ObjectManager,
        pool: &SegmentPool,
        sessions: &Vec<ClientSession>,
        now: CatalogTick,
    ) -> (revoked: usize)
        requires
            old(manager).wf(),
            pool.wf(),
        ensures
            final(manager).wf(),
            self.catalog_id != old(manager)@.catalog.catalog_id ==> revoked == 0 && final(manager)@
                == old(manager)@,
            self.catalog_id == old(manager)@.catalog.catalog_id ==> {
                let after = old(manager)@.catalog.revoked(pool@, owners_of(sessions@), now);
                &&& revoked == after.revoked
                &&& final(manager)@ == (ManagerView { catalog: after.catalog, ..old(manager)@ })
            },
    {
        if self.catalog_id != manager.catalog.catalog_id() {
            return 0;
        }
        let mut owners: Vec<WriteOwner> = Vec::new();
        let mut i: usize = 0;
        while i < sessions.len()
            invariant
                i <= sessions@.len(),
                owners@ == owners_of(sessions@.take(i as int)),
            decreases sessions@.len() - i,
        {
            owners.push(WriteOwner::for_session(sessions[i]));
            assert(owners@ =~= owners_of(sessions@.take(i + 1)));
            i = i + 1;
        }
        assert(sessions@.take(i as int) =~= sessions@);
        manager.catalog.revoke_pending_owners(pool, owners.as_slice(), now)
    }
}

} // verus!
