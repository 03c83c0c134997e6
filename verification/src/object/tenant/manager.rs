//! The tenant-aware façade around the object manager.

use super::super::catalog::read::{batch_trail, names_of, ObjectRead};
use super::super::catalog::state::CatalogView;
use super::super::config::{ObjectCatalogConfig, DEFAULT_EXPECTED_OBJECTS, MAX_EXPECTED_OBJECTS};
use super::super::diagnostics::ObjectCatalogStats;
use super::super::error::{
    LookupError, ObjectCatalogConfigError, ObjectManagerError, ObjectRemoveError, RemoveError,
};
use super::super::eviction::{MemoryEvictionConfig, MemoryEvictionController, MemoryEvictionStats};
use super::super::identity::{NamespaceId, ObjectIdentity, ObjectLookup};
use super::super::manager::{
    lemma_prepared_claim, lists_namespace, selected_names, selects, store_of, ManagerView,
    ObjectManager, ObjectManagerMaintenance, ObjectPutPlan, PendingWriteRevoker, PreparedPut,
    PutRequest, ReplicaSelector, StartedPut, Store,
};
use super::super::reclamation::{CatalogTick, CollectBudget, CollectReport, ReclaimTarget};
use super::super::write::{WriteAdmission, WriteMode, WriteOwner};
use super::quota::QuotaReservationGuard;
use super::registry::{
    accounts_opened, listed_ids, registered_namespaces, tenancy_of, ResolvedTenant, Tenancy,
    TenantRegistry, TenantsView,
};
use super::types::{
    TenantAdminError, TenantConfig, TenantConfigError, TenantId, TenantObjectError, TenantPolicy,
    TenantResourceClass, TenantSnapshot,
};
use crate::client::lifecycle::{ClientRegistry, RegistryView};
use crate::segment::placement::FulfillmentPolicy;
use crate::segment::pool::{PoolView, SegmentPool};
use vstd::prelude::*;
use vstd::std_specs::convert::FromSpec;

verus! {

/// One write of a batch.
#[derive(Clone, Debug)]
pub struct TenantPutRequest {
    pub key: String,
    pub plan: ObjectPutPlan,
}

impl TenantPutRequest {
    pub fn new(key: String, plan: ObjectPutPlan) -> (request: Self)
        ensures
            request.key == key,
            request.plan == plan,
    {
        Self { key, plan }
    }

    pub fn key(&self) -> (key: &str)
        ensures
            key@ == self.key@,
    {
        self.key.as_str()
    }

    pub fn plan(&self) -> (plan: &ObjectPutPlan)
        ensures
            *plan == self.plan,
    {
        &self.plan
    }

    pub fn into_parts(self) -> (parts: (String, ObjectPutPlan))
        ensures
            parts == (self.key, self.plan),
    {
        (self.key, self.plan)
    }
}

/// Why a tenant-aware manager cannot be made.
#[derive(Debug)]
pub enum TenantObjectManagerCreateError {
    Catalog(ObjectCatalogConfigError),
    Tenant(TenantConfigError),
}

/// Why a tenant's lookup failed.
#[derive(Clone, Copy, Debug, Eq, PartialEq, Structural)]
pub enum TenantGetError {
    Tenant(TenantObjectError),
    Lookup(LookupError),
}

/// Why a tenant's removal failed.
#[derive(Clone, Copy, Debug, Eq, PartialEq, Structural)]
pub enum TenantRemoveError {
    Tenant(TenantObjectError),
    Remove(ObjectRemoveError),
}

/// How many bytes a plan is charged for when it is admitted: all replicas where
/// all are owed, one where any number will do.
pub open spec fn charge_of(plan: ObjectPutPlan) -> Result<u64, ObjectManagerError> {
    let count = match plan.placement.fulfillment {
        FulfillmentPolicy::AllOrNothing => plan.placement.replicas.count as int,
        FulfillmentPolicy::BestEffort => 1,
    };
    if plan.content.logical_bytes * count > u64::MAX {
        Err(ObjectManagerError::InvalidPlan)
    } else {
        Ok((plan.content.logical_bytes * count) as u64)
    }
}

/// Works out what a plan is charged for when it is admitted.
pub fn admission_charge(plan: &ObjectPutPlan) -> (charge: Result<
    (TenantResourceClass, u64),
    ObjectManagerError,
>)
    ensures
        charge == match charge_of(*plan) {
            Ok(bytes) => Ok::<(TenantResourceClass, u64), ObjectManagerError>(
                (TenantResourceClass::Memory, bytes),
            ),
            Err(error) => Err(error),
        },
{
    let admission_replica_count: u64 = match plan.placement.fulfillment {
        FulfillmentPolicy::AllOrNothing => plan.placement.replicas.count as u64,
        FulfillmentPolicy::BestEffort => 1,
    };
    match plan.content.logical_bytes.checked_mul(admission_replica_count) {
        Some(bytes) => Ok((TenantResourceClass::Memory, bytes)),
        None => Err(ObjectManagerError::InvalidPlan),
    }
}

/// What a tenant sees of what starting a write came to.
pub open spec fn lifted(started: Result<StartedPut, ObjectManagerError>) -> Result<
    StartedPut,
    TenantObjectError,
> {
    match started {
        Ok(put) => Ok(put),
        Err(error) => Err(TenantObjectError::Object(error)),
    }
}

/// A write that a tenant asks for.
pub struct TenantWrite {
    pub name: (u64, Seq<char>),
    pub admission: WriteAdmission,
    pub plan: ObjectPutPlan,
    pub mode: WriteMode,
    pub now: CatalogTick,
}

/// The admission of `bytes` for a tenant.
pub open spec fn admission_of(namespace: u64, bytes: u64) -> QuotaReservationGuard {
    QuotaReservationGuard { tenant: namespace, class: TenantResourceClass::Memory, bytes }
}

impl Store {
    /// The store after an admission was rolled back.
    pub open spec fn quota_returned(self, guard: QuotaReservationGuard) -> Store {
        self.with_catalog(
            self.manager.catalog.given_back(guard.tenant, guard.class, guard.bytes),
        )
    }

    /// Whether `after` follows when a prepared write and its admission are given
    /// up.
    pub open spec fn write_given_up(
        self,
        after: Store,
        put: PreparedPut,
        guard: QuotaReservationGuard,
    ) -> bool {
        exists|middle: Store| #[trigger]
            self.abandoned(middle, put.claim, put.replicas@) && after == middle.quota_returned(
                guard,
            )
    }

    /// Whether `after` and `outcome` are what charging a prepared write for the
    /// replicas that it got and staging it comes to.
    pub open spec fn charged(
        self,
        after: Store,
        sessions: RegistryView,
        put: PreparedPut,
        guard: QuotaReservationGuard,
        outcome: Result<StartedPut, TenantObjectError>,
    ) -> bool {
        let bytes = put.content.logical_bytes * put.replicas@.len();
        if bytes > u64::MAX {
            &&& outcome == Err::<StartedPut, TenantObjectError>(
                TenantObjectError::Object(ObjectManagerError::InvalidPlan),
            )
            &&& self.write_given_up(after, put, guard)
        } else {
            match self.manager.catalog.resize_result(guard, bytes as u64) {
                Err(error) => {
                    &&& outcome == Err::<StartedPut, TenantObjectError>(error)
                    &&& self.write_given_up(after, put, guard)
                },
                Ok(_) => exists|staged: Result<StartedPut, ObjectManagerError>|
                    {
                        &&& #[trigger] self.with_catalog(
                            self.manager.catalog.resized(guard, bytes as u64),
                        ).finalized(
                            after,
                            sessions,
                            put.claim,
                            put.content,
                            put.replicas@,
                            Some(QuotaReservationGuard { bytes: bytes as u64, ..guard }),
                            staged,
                        )
                        &&& outcome == lifted(staged)
                    },
            }
        }
    }

    /// Whether `after` and `outcome` are what starting an admitted write comes
    /// to. The admission becomes the object's charge, sized to the replicas that
    /// it got; where the write is not started, the admission is rolled back.
    pub open spec fn started_accounted(
        self,
        after: Store,
        sessions: RegistryView,
        write: TenantWrite,
        guard: QuotaReservationGuard,
        outcome: Result<StartedPut, TenantObjectError>,
    ) -> bool {
        match write.plan.checked(self.manager.catalog.config) {
            Err(error) => {
                &&& outcome == Err::<StartedPut, TenantObjectError>(
                    TenantObjectError::Object(error),
                )
                &&& after == self.quota_returned(guard)
            },
            Ok(pins) => {
                let request = PutRequest {
                    name: write.name,
                    admission: write.admission,
                    plan: write.plan,
                    mode: write.mode,
                    pins,
                    now: write.now,
                };
                exists|middle: Store, put: Result<PreparedPut, ObjectManagerError>|
                    {
                        &&& #[trigger] self.prepared(middle, request, 0, None, put)
                        &&& match put {
                            Err(error) => {
                                &&& outcome == Err::<StartedPut, TenantObjectError>(
                                    TenantObjectError::Object(error),
                                )
                                &&& after == middle.quota_returned(guard)
                            },
                            Ok(prepared) => middle.charged(
                                after,
                                sessions,
                                prepared,
                                guard,
                                outcome,
                            ),
                        }
                    }
            },
        }
    }

    /// Whether `after` and `outcome` are what starting a write that is not
    /// accounted for comes to.
    pub open spec fn started_plainly(
        self,
        after: Store,
        sessions: RegistryView,
        write: TenantWrite,
        outcome: Result<StartedPut, TenantObjectError>,
    ) -> bool {
        exists|started: Result<StartedPut, ObjectManagerError>|
            {
                &&& #[trigger] self.started(
                    after,
                    sessions,
                    write.name,
                    write.admission,
                    write.plan,
                    write.mode,
                    write.now,
                    started,
                )
                &&& outcome == lifted(started)
            }
    }

    /// Whether `after` and `outcome` are what starting a tenant's write comes
    /// to.
    pub open spec fn tenant_started(
        self,
        after: Store,
        sessions: RegistryView,
        tenants: TenantsView,
        tenant: ResolvedTenant,
        write: TenantWrite,
        outcome: Result<StartedPut, TenantObjectError>,
    ) -> bool {
        let namespace = tenant.namespace.value;
        let account = self.manager.catalog.accounts[namespace].memory;
        let class = TenantResourceClass::Memory;
        if !tenants.is_bound(tenant) {
            &&& outcome == Err::<StartedPut, TenantObjectError>(
                TenantObjectError::InvalidTenantHandle,
            )
            &&& after == self
        } else if !tenant.accounted {
            self.started_plainly(after, sessions, write, outcome)
        } else {
            match charge_of(write.plan) {
                Err(error) => {
                    &&& outcome == Err::<StartedPut, TenantObjectError>(
                        TenantObjectError::Object(error),
                    )
                    &&& after == self
                },
                Ok(bytes) => if !tenants.is_valid(tenant) {
                    &&& outcome == Err::<StartedPut, TenantObjectError>(
                        TenantObjectError::InvalidTenantHandle,
                    )
                    &&& after == self
                } else if !account.admits(bytes) {
                    &&& outcome == Err::<StartedPut, TenantObjectError>(
                        account.refusal(class, bytes),
                    )
                    &&& after == self
                } else {
                    self.with_catalog(
                        self.manager.catalog.admitted(namespace, class, bytes),
                    ).started_accounted(
                        after,
                        sessions,
                        write,
                        admission_of(namespace, bytes),
                        outcome,
                    )
                },
            }
        }
    }
}

/// The bytes that the plans of a batch are charged for together.
pub open spec fn batch_total(requests: Seq<TenantPutRequest>) -> int
    decreases requests.len(),
{
    if requests.len() == 0 {
        0
    } else {
        batch_total(requests.drop_last()) + match charge_of(requests.last().plan) {
            Ok(bytes) => bytes as int,
            Err(_) => 0,
        }
    }
}

/// How many plans of a batch can be charged.
pub open spec fn batch_count(requests: Seq<TenantPutRequest>) -> nat
    decreases requests.len(),
{
    if requests.len() == 0 {
        0
    } else {
        batch_count(requests.drop_last()) + if charge_of(requests.last().plan) is Ok {
            1nat
        } else {
            0
        }
    }
}

/// The circumstances of a batch of writes.
pub struct BatchContext {
    pub sessions: RegistryView,
    pub namespace: u64,
    pub accounted: bool,
    pub admission: WriteAdmission,
    pub mode: WriteMode,
    pub now: CatalogTick,
    pub fault: Option<TenantObjectError>,
}

impl BatchContext {
    pub open spec fn write(self, request: TenantPutRequest) -> TenantWrite {
        TenantWrite {
            name: (self.namespace, request.key@),
            admission: self.admission,
            plan: request.plan,
            mode: self.mode,
            now: self.now,
        }
    }
}

impl Store {
    /// Why a batch is not admitted.
    pub open spec fn batch_fault(self, namespace: u64, requests: Seq<TenantPutRequest>) -> Option<
        TenantObjectError,
    > {
        let account = self.manager.catalog.accounts[namespace].memory;
        if batch_count(requests) == 0 {
            None
        } else if batch_total(requests) > u64::MAX {
            Some(TenantObjectError::Object(ObjectManagerError::InvalidPlan))
        } else if !account.admits(batch_total(requests) as u64) {
            Some(account.refusal(TenantResourceClass::Memory, batch_total(requests) as u64))
        } else {
            None
        }
    }

    /// The store after a batch was admitted as a whole.
    pub open spec fn batch_admitted(self, namespace: u64, requests: Seq<TenantPutRequest>) -> Store {
        if batch_count(requests) == 0 || self.batch_fault(namespace, requests) is Some {
            self
        } else {
            self.with_catalog(
                self.manager.catalog.admitted(
                    namespace,
                    TenantResourceClass::Memory,
                    batch_total(requests) as u64,
                ),
            )
        }
    }

    /// Whether `after` and `outcome` are what one write of an admitted batch
    /// comes to.
    pub open spec fn batch_step(
        self,
        after: Store,
        context: BatchContext,
        request: TenantPutRequest,
        outcome: Result<StartedPut, TenantObjectError>,
    ) -> bool {
        if !context.accounted {
            self.started_plainly(after, context.sessions, context.write(request), outcome)
        } else {
            match (charge_of(request.plan), context.fault) {
                (Err(error), _) => {
                    &&& outcome == Err::<StartedPut, TenantObjectError>(
                        TenantObjectError::Object(error),
                    )
                    &&& after == self
                },
                (Ok(_), Some(error)) => {
                    &&& outcome == Err::<StartedPut, TenantObjectError>(error)
                    &&& after == self
                },
                (Ok(bytes), None) => self.started_accounted(
                    after,
                    context.sessions,
                    context.write(request),
                    admission_of(context.namespace, bytes),
                    outcome,
                ),
            }
        }
    }

    /// Whether `after` and `outcomes` are what the writes of an admitted batch
    /// come to, one after the other.
    pub open spec fn batch_run(
        self,
        after: Store,
        context: BatchContext,
        requests: Seq<TenantPutRequest>,
        outcomes: Seq<Result<StartedPut, TenantObjectError>>,
    ) -> bool
        decreases requests.len(),
    {
        if requests.len() == 0 {
            after == self && outcomes.len() == 0
        } else {
            &&& outcomes.len() == requests.len()
            &&& exists|middle: Store|
                {
                    &&& self.batch_run(
                        middle,
                        context,
                        requests.drop_last(),
                        outcomes.drop_last(),
                    )
                    &&& #[trigger] middle.batch_step(
                        after,
                        context,
                        requests.last(),
                        outcomes.last(),
                    )
                }
        }
    }

    /// Whether `after` and `outcomes` are what starting a batch of writes comes
    /// to. The tenant is checked and the quota is asked for once; a batch of one
    /// is like a single write.
    pub open spec fn batch_started(
        self,
        after: Store,
        sessions: RegistryView,
        tenants: TenantsView,
        tenant: ResolvedTenant,
        admission: WriteAdmission,
        requests: Seq<TenantPutRequest>,
        mode: WriteMode,
        now: CatalogTick,
        outcomes: Seq<Result<StartedPut, TenantObjectError>>,
    ) -> bool {
        let context = BatchContext {
            sessions,
            namespace: tenant.namespace.value,
            accounted: tenant.accounted,
            admission,
            mode,
            now,
            fault: if tenant.accounted {
                self.batch_fault(tenant.namespace.value, requests)
            } else {
                None
            },
        };
        if requests.len() == 1 {
            &&& outcomes.len() == 1
            &&& self.tenant_started(
                after,
                sessions,
                tenants,
                tenant,
                context.write(requests[0]),
                outcomes[0],
            )
        } else if !tenants.is_valid(tenant) {
            &&& after == self
            &&& outcomes.len() == requests.len()
            &&& forall|i: int|
                0 <= i < outcomes.len() ==> (#[trigger] outcomes[i]) == Err::<
                    StartedPut,
                    TenantObjectError,
                >(TenantObjectError::InvalidTenantHandle)
        } else if !tenant.accounted {
            self.batch_run(after, context, requests, outcomes)
        } else {
            self.batch_admitted(tenant.namespace.value, requests).batch_run(
                after,
                context,
                requests,
                outcomes,
            )
        }
    }
}

/// The contents of a [`TenantObjectManager`].
pub struct TenantManagerView {
    pub tenants: TenantsView,
    pub objects: ManagerView,
}

impl TenantManagerView {
    /// The tenants with their accounts.
    pub open spec fn tenancy(self) -> Tenancy {
        tenancy_of(self.tenants, self.objects.catalog.accounts)
    }

    /// The manager with other tenants and accounts.
    pub open spec fn with_tenancy(self, tenancy: Tenancy) -> TenantManagerView {
        TenantManagerView {
            tenants: tenancy.tenants,
            objects: self.objects.with_accounts(tenancy.accounts),
        }
    }

    /// The manager with another catalog.
    pub open spec fn with_catalog(self, catalog: CatalogView) -> TenantManagerView {
        TenantManagerView { objects: ManagerView { catalog, ..self.objects }, ..self }
    }

    pub open spec fn store(self, pool: PoolView) -> Store {
        store_of(self.objects, pool)
    }

    /// The manager with quotas worked out anew if the segments have changed.
    pub open spec fn refreshed(self, pool: PoolView) -> TenantManagerView {
        self.with_tenancy(self.tenancy().refreshed(pool))
    }

    /// Whether `after` and `report` are what a maintenance round for targets
    /// comes to.
    pub open spec fn maintained(
        self,
        after: TenantManagerView,
        pool: PoolView,
        pool_after: PoolView,
        now: CatalogTick,
        budget: CollectBudget,
        targets: Seq<ReclaimTarget>,
        report: CollectReport,
    ) -> bool {
        &&& self.tenancy().reclaims(targets)
        &&& after.tenants == self.tenancy().reclaim_asked(targets).tenants
        &&& self.store(pool).maintained(after.store(pool_after), now, budget, targets, report)
    }
}

/// Read/control view that intentionally omits object mutation APIs, keeping
/// multi-tenant writes behind [`TenantObjectManager`].
pub struct TenantCatalog {
    object: ObjectManager,
}

impl View for TenantCatalog {
    type V = ManagerView;

    closed spec fn view(&self) -> ManagerView {
        self.object@
    }
}

impl TenantCatalog {
    pub closed spec fn wf(&self) -> bool {
        self.object.wf()
    }

    pub fn stats(&self) -> (stats: ObjectCatalogStats)
        ensures
            stats == self@.catalog.stats(),
    {
        self.object.catalog().stats()
    }

    /// Asks for bytes to be reclaimed by the next maintenance rounds.
    pub fn request_reclaim(&mut self, bytes: u64)
        requires
            old(self).wf(),
        ensures
            final(self).wf(),
            final(self)@ == (ManagerView {
                catalog: CatalogView {
                    reclaim_debt: if old(self)@.catalog.reclaim_debt < bytes {
                        bytes
                    } else {
                        old(self)@.catalog.reclaim_debt
                    },
                    ..old(self)@.catalog
                },
                ..old(self)@
            }),
    {
        self.object.request_reclaim(bytes);
    }
}

/// Tenant-aware façade around [`ObjectManager`]. It is the quota-safe public
/// path for multi-tenant object operations.
pub struct TenantObjectManager {
    catalog: TenantCatalog,
    registry: TenantRegistry,
}

impl View for TenantObjectManager {
    type V = TenantManagerView;

    closed spec fn view(&self) -> TenantManagerView {
        TenantManagerView { tenants: self.registry@, objects: self.catalog@ }
    }
}

/// What a manager holds when it is made with given tenants over given objects.
pub open spec fn made_with(
    manager_id: u64,
    pool: PoolView,
    config: TenantConfig,
    objects: ManagerView,
    made: Result<TenantObjectManager, TenantObjectManagerCreateError>,
) -> bool {
    match config {
        TenantConfig::Single => made matches Ok(manager) && manager.wf() && manager@ == (
        TenantManagerView { tenants: TenantsView::empty(manager_id, true), objects }),
        TenantConfig::Multi { initial_policies } => {
            let empty = TenantsView::empty(manager_id, false);
            let ids = listed_ids(initial_policies@);
            let start = tenancy_of(
                empty.enrolled(ids),
                accounts_opened(objects.catalog.accounts, initial_policies@),
            );
            match empty.enroll_fault(ids) {
                Some(fault) => made matches Err(TenantObjectManagerCreateError::Tenant(error))
                    && error@ == fault,
                None => made matches Ok(manager) && manager.wf() && manager@ == (
                TenantManagerView {
                    tenants: start.refreshed(pool).tenants,
                    objects: objects.with_accounts(start.refreshed(pool).accounts),
                }),
            }
        },
    }
}

impl TenantObjectManager {
    /// What holds of every manager.
    pub closed spec fn wf(&self) -> bool {
        self.catalog.wf() && self.registry.wf()
    }

    /// A manager's own invariant, for callers that hold the manager.
    pub proof fn lemma_wf(&self)
        requires
            self.wf(),
        ensures
            self@.tenants.wf(),
            self@.objects.wf(),
    {
        self.registry.lemma_wf();
        self.catalog.object.lemma_wf();
    }

    /// A manager with the default object configuration. `manager_id` tells its
    /// tenants from those of other managers, `catalog_id` its objects.
    pub fn new(manager_id: u64, catalog_id: u64, pool: &SegmentPool, tenant_config: &TenantConfig) -> (made: Result<
        Self,
        TenantObjectManagerCreateError,
    >)
        requires
            pool.wf(),
        ensures
            made_with(
                manager_id,
                pool@,
                *tenant_config,
                (ManagerView {
                    catalog: CatalogView::empty(
                        catalog_id,
                        ObjectCatalogConfig::usual(DEFAULT_EXPECTED_OBJECTS),
                    ),
                    observed_epoch: pool@.invalidation_epoch,
                    eviction: None,
                }),
                made,
            ),
    {
        Self::from_object_manager(
            manager_id,
            pool,
            tenant_config,
            ObjectManager::new(catalog_id, pool),
        )
    }

    pub fn with_config(
        manager_id: u64,
        catalog_id: u64,
        pool: &SegmentPool,
        object_config: ObjectCatalogConfig,
        tenant_config: &TenantConfig,
    ) -> (made: Result<Self, TenantObjectManagerCreateError>)
        requires
            pool.wf(),
            object_config.expected_objects <= MAX_EXPECTED_OBJECTS,
        ensures
            match object_config.fault() {
                Some(fault) => made == Err::<Self, TenantObjectManagerCreateError>(
                    TenantObjectManagerCreateError::Catalog(fault),
                ),
                None => made_with(
                    manager_id,
                    pool@,
                    *tenant_config,
                    ManagerView {
                        catalog: CatalogView::empty(catalog_id, object_config),
                        observed_epoch: pool@.invalidation_epoch,
                        eviction: None,
                    },
                    made,
                ),
            },
    {
        match ObjectManager::with_config(catalog_id, pool, object_config) {
            Ok(object) => Self::from_object_manager(manager_id, pool, tenant_config, object),
            Err(error) => Err(TenantObjectManagerCreateError::Catalog(error)),
        }
    }

    pub fn with_eviction_config(
        manager_id: u64,
        catalog_id: u64,
        pool: &SegmentPool,
        object_config: ObjectCatalogConfig,
        tenant_config: &TenantConfig,
        eviction_config: MemoryEvictionConfig,
    ) -> (made: Result<Self, TenantObjectManagerCreateError>)
        requires
            pool.wf(),
            object_config.expected_objects <= MAX_EXPECTED_OBJECTS,
            eviction_config.wf(),
        ensures
            match object_config.fault() {
                Some(fault) => made == Err::<Self, TenantObjectManagerCreateError>(
                    TenantObjectManagerCreateError::Catalog(fault),
                ),
                None => made_with(
                    manager_id,
                    pool@,
                    *tenant_config,
                    ManagerView {
                        catalog: CatalogView::empty(catalog_id, object_config),
                        observed_epoch: pool@.invalidation_epoch,
                        eviction: Some(
                            MemoryEvictionController {
                                config: eviction_config,
                                stats: MemoryEvictionStats::zero(),
                                watermark_active: false,
                                allocation_reclaim_bytes: 0,
                                allocation_generation: 0,
                            },
                        ),
                    },
                    made,
                ),
            },
    {
        match ObjectManager::with_eviction_config(
            catalog_id,
            pool,
            object_config,
            eviction_config,
        ) {
            Ok(object) => Self::from_object_manager(manager_id, pool, tenant_config, object),
            Err(error) => Err(TenantObjectManagerCreateError::Catalog(error)),
        }
    }

    fn from_object_manager(
        manager_id: u64,
        pool: &SegmentPool,
        tenant_config: &TenantConfig,
        object: ObjectManager,
    ) -> (made: Result<Self, TenantObjectManagerCreateError>)
        requires
            pool.wf(),
            object.wf(),
        ensures
            made_with(manager_id, pool@, *tenant_config, object@, made),
    {
        let mut object = object;
        match TenantRegistry::new(manager_id, &mut object, pool, tenant_config) {
            Ok(registry) => Ok(Self { catalog: TenantCatalog { object }, registry }),
            Err(error) => Err(TenantObjectManagerCreateError::Tenant(error)),
        }
    }

    pub fn catalog(&self) -> (catalog: &TenantCatalog)
        ensures
            catalog@ == self@.objects,
            self.wf() ==> catalog.wf(),
    {
        &self.catalog
    }

    /// The catalog, to ask it for room.
    pub fn catalog_mut(&mut self) -> (catalog: &mut TenantCatalog)
        requires
            old(self).wf(),
        ensures
            catalog.wf(),
            catalog@ == old(self)@.objects,
            final(self)@ == (TenantManagerView { objects: final(catalog)@, ..old(self)@ }),
            final(catalog).wf() ==> final(self).wf(),
    {
        &mut self.catalog
    }

    /// The objects of all tenants, for work that no tenant asks for, such as
    /// revoking the writes of clients that are gone.
    pub fn objects_mut(&mut self) -> (objects: &mut ObjectManager)
        requires
            old(self).wf(),
        ensures
            objects.wf(),
            objects@ == old(self)@.objects,
            final(self)@ == (TenantManagerView { objects: final(objects)@, ..old(self)@ }),
            final(objects).wf() ==> final(self).wf(),
    {
        &mut self.catalog.object
    }

    /// Hands out the capability to revoke writes of fenced sessions.
    pub fn pending_write_revoker(&self) -> (revoker: PendingWriteRevoker)
        ensures
            revoker.catalog_id == self@.objects.catalog.catalog_id,
    {
        self.catalog.object.pending_write_revoker()
    }

    pub fn resolve_tenant(&self, tenant_id: &TenantId) -> (resolved: Result<
        ResolvedTenant,
        TenantObjectError,
    >)
        requires
            self.wf(),
        ensures
            resolved == self@.tenants.resolve_result(tenant_id@),
    {
        self.registry.resolve(tenant_id)
    }
}

impl TenantObjectManager {
    /// Starts an admitted write. Its admission becomes the object's charge.
    fn start_write_accounted(
        &mut self,
        pool: &mut SegmentPool,
        sessions: &ClientRegistry,
        identity: ObjectIdentity,
        admission: WriteAdmission,
        plan: &ObjectPutPlan,
        now: CatalogTick,
        mode: WriteMode,
        reservation: QuotaReservationGuard,
    ) -> (started: Result<StartedPut, TenantObjectError>)
        requires
            old(self).wf(),
            old(pool).wf(),
        ensures
            final(self).wf(),
            final(pool).wf(),
            final(self)@.tenants == old(self)@.tenants,
            old(self)@.store(old(pool)@).started_accounted(
                final(self)@.store(final(pool)@),
                sessions@,
                (TenantWrite { name: identity@, admission, plan: *plan, mode, now }),
                reservation,
                started,
            ),
    {
        let ghost before = self@.store(pool@);
        let mut reservation = reservation;
        let ghost guard = reservation;
        let pins = match self.catalog.object.validate_plan(plan) {
            Ok(pins) => pins,
            Err(error) => {
                self.catalog.object.release_quota(reservation);
                return Err(TenantObjectError::Object(error));
            },
        };
        let ghost request = PutRequest { name: identity@, admission, plan: *plan, mode, pins, now };
        let prepared = self.catalog.object.prepare_write(
            pool,
            &identity,
            admission,
            plan,
            mode,
            pins,
            now,
        );
        let ghost middle = self@.store(pool@);
        assert(before.prepared(middle, request, 0, None, prepared));
        match prepared {
            Err(error) => {
                self.catalog.object.release_quota(reservation);
                Err(TenantObjectError::Object(error))
            },
            Ok(put) => {
                proof {
                    lemma_prepared_claim(before, middle, request, 0, None, Ok(put));
                }
                self.charge_put(pool, sessions, put, reservation)
            },
        }
    }

    /// Charges a prepared write for the replicas that it got, and stages it.
    fn charge_put(
        &mut self,
        pool: &mut SegmentPool,
        sessions: &ClientRegistry,
        put: PreparedPut,
        reservation: QuotaReservationGuard,
    ) -> (started: Result<StartedPut, TenantObjectError>)
        requires
            old(self).wf(),
            old(pool).wf(),
            put.claim.catalog_id == old(self)@.objects.catalog.catalog_id,
        ensures
            final(self).wf(),
            final(pool).wf(),
            final(self)@.tenants == old(self)@.tenants,
            old(self)@.store(old(pool)@).charged(
                final(self)@.store(final(pool)@),
                sessions@,
                put,
                reservation,
                started,
            ),
    {
        let ghost before = self@.store(pool@);
        let mut reservation = reservation;
        let ghost guard = reservation;
        let charged = match put.content.logical_bytes.checked_mul(
            put.replicas.replicas().len() as u64,
        ) {
            None => Err(TenantObjectError::Object(ObjectManagerError::InvalidPlan)),
            Some(bytes) => self.catalog.object.resize_quota(&mut reservation, bytes),
        };
        if let Err(error) = charged {
            self.catalog.object.abandon_put(pool, put);
            let ghost middle = self@.store(pool@);
            assert(before.abandoned(middle, put.claim, put.replicas@));
            self.catalog.object.release_quota(reservation);
            return Err(error);
        }
        let ghost sized = self@.store(pool@);
        let staged = self.catalog.object.finalize_start_put(
            pool,
            sessions,
            put,
            Some(reservation),
        );
        assert(sized.finalized(
            self@.store(pool@),
            sessions@,
            put.claim,
            put.content,
            put.replicas@,
            Some(reservation),
            staged,
        ));
        match staged {
            Ok(started) => Ok(started),
            Err(error) => Err(TenantObjectError::Object(error)),
        }
    }

    /// Starts a write that is not accounted for.
    fn start_write_plainly(
        &mut self,
        pool: &mut SegmentPool,
        sessions: &ClientRegistry,
        identity: ObjectIdentity,
        admission: WriteAdmission,
        plan: &ObjectPutPlan,
        now: CatalogTick,
        mode: WriteMode,
    ) -> (started: Result<StartedPut, TenantObjectError>)
        requires
            old(self).wf(),
            old(pool).wf(),
        ensures
            final(self).wf(),
            final(pool).wf(),
            final(self)@.tenants == old(self)@.tenants,
            old(self)@.store(old(pool)@).started_plainly(
                final(self)@.store(final(pool)@),
                sessions@,
                (TenantWrite { name: identity@, admission, plan: *plan, mode, now }),
                started,
            ),
    {
        let ghost before = self@.store(pool@);
        let started = match mode {
            WriteMode::Insert => self.catalog.object.start_put(
                pool,
                sessions,
                identity,
                admission,
                plan,
                now,
            ),
            WriteMode::Upsert => self.catalog.object.start_upsert(
                pool,
                sessions,
                identity,
                admission,
                plan,
                now,
            ),
        };
        let lifted_up = match started {
            Ok(put) => Ok(put),
            Err(error) => Err(TenantObjectError::Object(error)),
        };
        proof {
            let after = self@.store(pool@);
            let write = TenantWrite { name: identity@, admission, plan: *plan, mode, now };
            assert(before.started(
                after,
                sessions@,
                write.name,
                write.admission,
                write.plan,
                write.mode,
                write.now,
                started,
            ));
            assert(lifted_up == lifted(started));
            assert(before.started_plainly(after, sessions@, write, lifted_up));
        }
        lifted_up
    }

    fn start_write(
        &mut self,
        pool: &mut SegmentPool,
        sessions: &ClientRegistry,
        tenant: &ResolvedTenant,
        key: String,
        admission: WriteAdmission,
        plan: &ObjectPutPlan,
        now: CatalogTick,
        mode: WriteMode,
    ) -> (started: Result<StartedPut, TenantObjectError>)
        requires
            old(self).wf(),
            old(pool).wf(),
        ensures
            final(self).wf(),
            final(pool).wf(),
            final(self)@.tenants == old(self)@.tenants,
            old(self)@.store(old(pool)@).tenant_started(
                final(self)@.store(final(pool)@),
                sessions@,
                old(self)@.tenants,
                *tenant,
                (TenantWrite {
                    name: (tenant.namespace.value, key@),
                    admission,
                    plan: *plan,
                    mode,
                    now,
                }),
                started,
            ),
    {
        if let Err(error) = self.registry.validate_binding(tenant) {
            return Err(error);
        }
        let identity = ObjectIdentity::new(tenant.namespace, key);
        if !tenant.accounted {
            return self.start_write_plainly(pool, sessions, identity, admission, plan, now, mode);
        }
        let (class, bytes) = match admission_charge(plan) {
            Ok(charge) => charge,
            Err(error) => return Err(TenantObjectError::Object(error)),
        };
        if let Err(error) = self.registry.validate(tenant) {
            return Err(error);
        }
        match self.catalog.object.reserve_quota(tenant.namespace.value, class, bytes) {
            Err(error) => Err(error),
            Ok(reservation) => self.start_write_accounted(
                pool,
                sessions,
                identity,
                admission,
                plan,
                now,
                mode,
                reservation,
            ),
        }
    }

    /// Starts the write of an object that does not exist yet.
    pub fn start_put(
        &mut self,
        pool: &mut SegmentPool,
        sessions: &ClientRegistry,
        tenant: &ResolvedTenant,
        key: String,
        admission: WriteAdmission,
        plan: &ObjectPutPlan,
        now: CatalogTick,
    ) -> (started: Result<StartedPut, TenantObjectError>)
        requires
            old(self).wf(),
            old(pool).wf(),
        ensures
            final(self).wf(),
            final(pool).wf(),
            final(self)@.tenants == old(self)@.tenants,
            old(self)@.store(old(pool)@).tenant_started(
                final(self)@.store(final(pool)@),
                sessions@,
                old(self)@.tenants,
                *tenant,
                (TenantWrite {
                    name: (tenant.namespace.value, key@),
                    admission,
                    plan: *plan,
                    mode: WriteMode::Insert,
                    now,
                }),
                started,
            ),
    {
        self.start_write(pool, sessions, tenant, key, admission, plan, now, WriteMode::Insert)
    }

    /// Starts the write of an object that may exist already.
    pub fn start_upsert(
        &mut self,
        pool: &mut SegmentPool,
        sessions: &ClientRegistry,
        tenant: &ResolvedTenant,
        key: String,
        admission: WriteAdmission,
        plan: &ObjectPutPlan,
        now: CatalogTick,
    ) -> (started: Result<StartedPut, TenantObjectError>)
        requires
            old(self).wf(),
            old(pool).wf(),
        ensures
            final(self).wf(),
            final(pool).wf(),
            final(self)@.tenants == old(self)@.tenants,
            old(self)@.store(old(pool)@).tenant_started(
                final(self)@.store(final(pool)@),
                sessions@,
                old(self)@.tenants,
                *tenant,
                (TenantWrite {
                    name: (tenant.namespace.value, key@),
                    admission,
                    plan: *plan,
                    mode: WriteMode::Upsert,
                    now,
                }),
                started,
            ),
    {
        self.start_write(pool, sessions, tenant, key, admission, plan, now, WriteMode::Upsert)
    }

    /// Starts a batch after one tenant validation and at most one initial quota
    /// admission. Placement and staging remain item-independent.
    pub fn start_put_batch(
        &mut self,
        pool: &mut SegmentPool,
        sessions: &ClientRegistry,
        tenant: &ResolvedTenant,
        admission: WriteAdmission,
        requests: &Vec<TenantPutRequest>,
        now: CatalogTick,
    ) -> (started: Vec<Result<StartedPut, TenantObjectError>>)
        requires
            old(self).wf(),
            old(pool).wf(),
        ensures
            final(self).wf(),
            final(pool).wf(),
            final(self)@.tenants == old(self)@.tenants,
            old(self)@.store(old(pool)@).batch_started(
                final(self)@.store(final(pool)@),
                sessions@,
                old(self)@.tenants,
                *tenant,
                admission,
                requests@,
                WriteMode::Insert,
                now,
                started@,
            ),
    {
        self.start_write_batch(pool, sessions, tenant, admission, requests, now, WriteMode::Insert)
    }

    pub fn start_upsert_batch(
        &mut self,
        pool: &mut SegmentPool,
        sessions: &ClientRegistry,
        tenant: &ResolvedTenant,
        admission: WriteAdmission,
        requests: &Vec<TenantPutRequest>,
        now: CatalogTick,
    ) -> (started: Vec<Result<StartedPut, TenantObjectError>>)
        requires
            old(self).wf(),
            old(pool).wf(),
        ensures
            final(self).wf(),
            final(pool).wf(),
            final(self)@.tenants == old(self)@.tenants,
            old(self)@.store(old(pool)@).batch_started(
                final(self)@.store(final(pool)@),
                sessions@,
                old(self)@.tenants,
                *tenant,
                admission,
                requests@,
                WriteMode::Upsert,
                now,
                started@,
            ),
    {
        self.start_write_batch(pool, sessions, tenant, admission, requests, now, WriteMode::Upsert)
    }

    fn start_write_batch(
        &mut self,
        pool: &mut SegmentPool,
        sessions: &ClientRegistry,
        tenant: &ResolvedTenant,
        admission: WriteAdmission,
        requests: &Vec<TenantPutRequest>,
        now: CatalogTick,
        mode: WriteMode,
    ) -> (started: Vec<Result<StartedPut, TenantObjectError>>)
        requires
            old(self).wf(),
            old(pool).wf(),
        ensures
            final(self).wf(),
            final(pool).wf(),
            final(self)@.tenants == old(self)@.tenants,
            old(self)@.store(old(pool)@).batch_started(
                final(self)@.store(final(pool)@),
                sessions@,
                old(self)@.tenants,
                *tenant,
                admission,
                requests@,
                mode,
                now,
                started@,
            ),
    {
        let mut started: Vec<Result<StartedPut, TenantObjectError>> = Vec::new();
        if requests.len() == 1 {
            let request = &requests[0];
            let one = self.start_write(
                pool,
                sessions,
                tenant,
                request.key.clone(),
                admission,
                &request.plan,
                now,
                mode,
            );
            started.push(one);
            return started;
        }
        if let Err(error) = self.registry.validate(tenant) {
            let mut i: usize = 0;
            while i < requests.len()
                invariant
                    i <= requests@.len(),
                    started@.len() == i,
                    error == TenantObjectError::InvalidTenantHandle,
                    forall|j: int|
                        0 <= j < i ==> (#[trigger] started@[j]) == Err::<
                            StartedPut,
                            TenantObjectError,
                        >(error),
                decreases requests@.len() - i,
            {
                started.push(Err(error));
                i = i + 1;
            }
            return started;
        }
        let fault = if tenant.accounted {
            self.admit_batch(tenant.namespace.value, requests, Ghost(pool@))
        } else {
            None
        };
        self.run_batch(pool, sessions, tenant, admission, requests, now, mode, fault)
    }

    /// Admits a batch as a whole. Returns why it is not admitted.
    fn admit_batch(&mut self, namespace: u64, requests: &Vec<TenantPutRequest>, pool: Ghost<PoolView>) -> (fault: Option<
        TenantObjectError,
    >)
        requires
            old(self).wf(),
        ensures
            final(self).wf(),
            final(self)@.tenants == old(self)@.tenants,
            fault == old(self)@.store(pool@).batch_fault(namespace, requests@),
            final(self)@.store(pool@) == old(self)@.store(pool@).batch_admitted(
                namespace,
                requests@,
            ),
    {
        let mut any_valid = false;
        let mut total: Option<u64> = Some(0);
        let mut i: usize = 0;
        assert(requests@.take(0) =~= Seq::empty());
        while i < requests.len()
            invariant
                i <= requests@.len(),
                any_valid == (batch_count(requests@.take(i as int)) > 0),
                total == if batch_total(requests@.take(i as int)) > u64::MAX {
                    None
                } else {
                    Some(batch_total(requests@.take(i as int)) as u64)
                },
                batch_total(requests@.take(i as int)) >= 0,
            decreases requests@.len() - i,
        {
            proof {
                assert(requests@.take(i as int + 1).drop_last() =~= requests@.take(i as int));
            }
            if let Ok((_, bytes)) = admission_charge(&requests[i].plan) {
                any_valid = true;
                total = match total {
                    Some(sum) => sum.checked_add(bytes),
                    None => None,
                };
            }
            i = i + 1;
        }
        assert(requests@.take(i as int) =~= requests@);
        if !any_valid {
            return None;
        }
        match total {
            None => Some(TenantObjectError::Object(ObjectManagerError::InvalidPlan)),
            Some(bytes) => match self.catalog.object.reserve_quota(
                namespace,
                TenantResourceClass::Memory,
                bytes,
            ) {
                Ok(_) => None,
                Err(error) => Some(error),
            },
        }
    }

    /// Starts the writes of a batch one after the other.
    fn run_batch(
        &mut self,
        pool: &mut SegmentPool,
        sessions: &ClientRegistry,
        tenant: &ResolvedTenant,
        admission: WriteAdmission,
        requests: &Vec<TenantPutRequest>,
        now: CatalogTick,
        mode: WriteMode,
        fault: Option<TenantObjectError>,
    ) -> (started: Vec<Result<StartedPut, TenantObjectError>>)
        requires
            old(self).wf(),
            old(pool).wf(),
        ensures
            final(self).wf(),
            final(pool).wf(),
            final(self)@.tenants == old(self)@.tenants,
            old(self)@.store(old(pool)@).batch_run(
                final(self)@.store(final(pool)@),
                (BatchContext {
                    sessions: sessions@,
                    namespace: tenant.namespace.value,
                    accounted: tenant.accounted,
                    admission,
                    mode,
                    now,
                    fault,
                }),
                requests@,
                started@,
            ),
    {
        let ghost origin = self@.store(pool@);
        let ghost tenants = self@.tenants;
        let ghost context = BatchContext {
            sessions: sessions@,
            namespace: tenant.namespace.value,
            accounted: tenant.accounted,
            admission,
            mode,
            now,
            fault,
        };
        let mut started: Vec<Result<StartedPut, TenantObjectError>> = Vec::new();
        let mut i: usize = 0;
        assert(requests@.take(0) =~= Seq::empty());
        while i < requests.len()
            invariant
                i <= requests@.len(),
                started@.len() == i,
                self.wf(),
                pool.wf(),
                self@.tenants == tenants,
                context == (BatchContext {
                    sessions: sessions@,
                    namespace: tenant.namespace.value,
                    accounted: tenant.accounted,
                    admission,
                    mode,
                    now,
                    fault,
                }),
                origin.batch_run(
                    self@.store(pool@),
                    context,
                    requests@.take(i as int),
                    started@,
                ),
            decreases requests@.len() - i,
        {
            let ghost middle = self@.store(pool@);
            let ghost before = started@;
            let request = &requests[i];
            let identity = ObjectIdentity::new(tenant.namespace, request.key.clone());
            let one = if !tenant.accounted {
                self.start_write_plainly(
                    pool,
                    sessions,
                    identity,
                    admission,
                    &request.plan,
                    now,
                    mode,
                )
            } else {
                match admission_charge(&request.plan) {
                    Err(error) => Err(TenantObjectError::Object(error)),
                    Ok((class, bytes)) => match fault {
                        Some(error) => Err(error),
                        None => self.start_write_accounted(
                            pool,
                            sessions,
                            identity,
                            admission,
                            &request.plan,
                            now,
                            mode,
                            QuotaReservationGuard { tenant: tenant.namespace.value, class, bytes },
                        ),
                    },
                }
            };
            started.push(one);
            proof {
                assert(middle.batch_step(self@.store(pool@), context, *request, one));
                assert(requests@.take(i as int + 1).drop_last() =~= requests@.take(i as int));
                assert(requests@.take(i as int + 1).last() == *request);
                assert(started@.drop_last() =~= before);
                lemma_batch_goes_on(
                    origin,
                    middle,
                    self@.store(pool@),
                    context,
                    requests@.take(i as int + 1),
                    started@,
                );
            }
            i = i + 1;
        }
        assert(requests@.take(i as int) =~= requests@);
        started
    }
}

/// One write more of a batch.
proof fn lemma_batch_goes_on(
    origin: Store,
    middle: Store,
    after: Store,
    context: BatchContext,
    requests: Seq<TenantPutRequest>,
    outcomes: Seq<Result<StartedPut, TenantObjectError>>,
)
    requires
        requests.len() > 0,
        outcomes.len() == requests.len(),
        origin.batch_run(middle, context, requests.drop_last(), outcomes.drop_last()),
        middle.batch_step(after, context, requests.last(), outcomes.last()),
    ensures
        origin.batch_run(after, context, requests, outcomes),
{
}

/// Whether `after` and `found` are what looking objects up one after the other
/// comes to.
pub open spec fn finds_all(
    before: CatalogView,
    after: CatalogView,
    pool: PoolView,
    names: Seq<(u64, Seq<char>)>,
    now: CatalogTick,
    found: Seq<Result<ObjectRead, LookupError>>,
) -> bool {
    exists|trail: Seq<CatalogView>|
        {
            &&& #[trigger] batch_trail(trail, pool, names, now, found)
            &&& trail[0] == before
            &&& trail.last() == after
        }
}

/// The names of keys in a namespace.
pub open spec fn names_in(namespace: NamespaceId, keys: Seq<&str>) -> Seq<(u64, Seq<char>)> {
    keys.map_values(|key: &str| (namespace.value, key@))
}

impl CatalogView {
    /// The catalog after writes were finished one after the other.
    pub open spec fn finished_all(
        self,
        names: Seq<(u64, Seq<char>)>,
        pool: PoolView,
        owner: WriteOwner,
        selector: ReplicaSelector,
        now: CatalogTick,
    ) -> CatalogView
        decreases names.len(),
    {
        if names.len() == 0 {
            self
        } else {
            self.finished_all(names.drop_last(), pool, owner, selector, now).finished(
                pool,
                names.last(),
                owner,
                selector,
                now,
            )
        }
    }

    /// The catalog after writes were revoked one after the other.
    pub open spec fn revoked_all(
        self,
        names: Seq<(u64, Seq<char>)>,
        pool: PoolView,
        owner: WriteOwner,
        selector: ReplicaSelector,
        now: CatalogTick,
    ) -> CatalogView
        decreases names.len(),
    {
        if names.len() == 0 {
            self
        } else {
            self.revoked_all(names.drop_last(), pool, owner, selector, now).write_revoked(
                pool,
                names.last(),
                owner,
                selector,
                now,
            )
        }
    }

    /// The catalog after it was asked whether an object can be read.
    pub open spec fn probed(
        self,
        pool: PoolView,
        name: (u64, Seq<char>),
        now: CatalogTick,
    ) -> CatalogView {
        match self.get_result(pool, name) {
            Ok(place) => self.after_get(pool, name, now).version_released(
                self.catalog_id,
                place.0,
                place.1,
            ),
            Err(_) => self.after_get(pool, name, now),
        }
    }

    /// The catalog after it was asked for objects one after the other.
    pub open spec fn probed_all(
        self,
        names: Seq<(u64, Seq<char>)>,
        pool: PoolView,
        now: CatalogTick,
    ) -> CatalogView
        decreases names.len(),
    {
        if names.len() == 0 {
            self
        } else {
            self.probed_all(names.drop_last(), pool, now).probed(pool, names.last(), now)
        }
    }

    /// Whether an object can be read.
    pub open spec fn could_be_read(self, pool: PoolView, name: (u64, Seq<char>)) -> bool {
        self.get_result(pool, name) is Ok
    }

    /// What removing an object comes to, as a tenant sees it.
    pub open spec fn removal(self, name: (u64, Seq<char>), now: CatalogTick, force: bool) -> Result<
        (),
        ObjectRemoveError,
    > {
        match self.remove_result(name, now, force) {
            Ok(()) => Ok(()),
            Err(error) => Err(<ObjectRemoveError as FromSpec<RemoveError>>::from_spec(error)),
        }
    }
}

/// Whether `after` and `removed` are what removing the objects of a namespace
/// that a pattern selects comes to, in some order.
pub open spec fn clears(
    before: ManagerView,
    after: ManagerView,
    namespace: NamespaceId,
    pattern: Option<&regex::Regex>,
    now: CatalogTick,
    force: bool,
    removed: int,
) -> bool {
    exists|identities: Seq<ObjectIdentity>, selected: Seq<bool>|
        {
            &&& #[trigger] lists_namespace(before.catalog, namespace, identities)
            &&& #[trigger] selects(pattern, identities, selected)
            &&& removed == before.catalog.removed_count(
                selected_names(identities, selected),
                now,
                force,
            )
            &&& after == (ManagerView {
                catalog: before.catalog.removed_all(
                    selected_names(identities, selected),
                    now,
                    force,
                ),
                ..before
            })
        }
}

/// Whether `after` and `removed` are what removing all objects of one more
/// namespace comes to.
pub open spec fn clears_next(
    before: ManagerView,
    earlier: int,
    after: ManagerView,
    namespace: u64,
    now: CatalogTick,
    force: bool,
    removed: int,
) -> bool {
    clears(before, after, NamespaceId { value: namespace }, None, now, force, removed - earlier)
}

/// Whether `after` and `removed` are what removing all objects of namespaces
/// comes to, one namespace after the other.
pub open spec fn clears_all(
    before: ManagerView,
    after: ManagerView,
    namespaces: Seq<u64>,
    now: CatalogTick,
    force: bool,
    removed: int,
) -> bool
    decreases namespaces.len(),
{
    if namespaces.len() == 0 {
        after == before && removed == 0
    } else {
        exists|middle: ManagerView, earlier: int|
            {
                &&& clears_all(before, middle, namespaces.drop_last(), now, force, earlier)
                &&& #[trigger] clears_next(
                    middle,
                    earlier,
                    after,
                    namespaces.last(),
                    now,
                    force,
                    removed,
                )
            }
    }
}

impl TenantObjectManager {
    pub fn finish_put(
        &mut self,
        pool: &SegmentPool,
        tenant: &ResolvedTenant,
        key: &str,
        owner: WriteOwner,
        selector: ReplicaSelector,
    ) -> (finished: Result<(), TenantObjectError>)
        requires
            old(self).wf(),
            pool.wf(),
        ensures
            final(self).wf(),
            ({
                let catalog = old(self)@.objects.catalog;
                let name = (tenant.namespace.value, key@);
                if !old(self)@.tenants.is_valid(*tenant) {
                    &&& finished == Err::<(), TenantObjectError>(
                        TenantObjectError::InvalidTenantHandle,
                    )
                    &&& final(self)@ == old(self)@
                } else {
                    &&& finished == match catalog.finish_result(pool@, name, owner, selector) {
                        Ok(()) => Ok::<(), TenantObjectError>(()),
                        Err(error) => Err(TenantObjectError::Object(error)),
                    }
                    &&& final(self)@ == old(self)@.with_catalog(
                        catalog.finished(
                            pool@,
                            name,
                            owner,
                            selector,
                            CatalogTick { value: 0 },
                        ),
                    )
                }
            }),
    {
        self.finish_put_at(pool, tenant, key, owner, selector, CatalogTick::new(0))
    }

    pub fn finish_put_at(
        &mut self,
        pool: &SegmentPool,
        tenant: &ResolvedTenant,
        key: &str,
        owner: WriteOwner,
        selector: ReplicaSelector,
        now: CatalogTick,
    ) -> (finished: Result<(), TenantObjectError>)
        requires
            old(self).wf(),
            pool.wf(),
        ensures
            final(self).wf(),
            ({
                let catalog = old(self)@.objects.catalog;
                let name = (tenant.namespace.value, key@);
                if !old(self)@.tenants.is_valid(*tenant) {
                    &&& finished == Err::<(), TenantObjectError>(
                        TenantObjectError::InvalidTenantHandle,
                    )
                    &&& final(self)@ == old(self)@
                } else {
                    &&& finished == match catalog.finish_result(pool@, name, owner, selector) {
                        Ok(()) => Ok::<(), TenantObjectError>(()),
                        Err(error) => Err(TenantObjectError::Object(error)),
                    }
                    &&& final(self)@ == old(self)@.with_catalog(
                        catalog.finished(pool@, name, owner, selector, now),
                    )
                }
            }),
    {
        if let Err(error) = self.registry.validate(tenant) {
            return Err(error);
        }
        match self.catalog.object.finish_put_lookup_at(
            pool,
            ObjectLookup::new(tenant.namespace, key),
            owner,
            selector,
            now,
        ) {
            Ok(()) => Ok(()),
            Err(error) => Err(TenantObjectError::Object(error)),
        }
    }

    pub fn revoke_put(
        &mut self,
        pool: &SegmentPool,
        tenant: &ResolvedTenant,
        key: &str,
        owner: WriteOwner,
        selector: ReplicaSelector,
        now: CatalogTick,
    ) -> (revoked: Result<(), TenantObjectError>)
        requires
            old(self).wf(),
            pool.wf(),
        ensures
            final(self).wf(),
            ({
                let catalog = old(self)@.objects.catalog;
                let name = (tenant.namespace.value, key@);
                if !old(self)@.tenants.is_valid(*tenant) {
                    &&& revoked == Err::<(), TenantObjectError>(
                        TenantObjectError::InvalidTenantHandle,
                    )
                    &&& final(self)@ == old(self)@
                } else {
                    &&& revoked == match catalog.revoke_result(pool@, name, owner, selector) {
                        Ok(()) => Ok::<(), TenantObjectError>(()),
                        Err(error) => Err(TenantObjectError::Object(error)),
                    }
                    &&& final(self)@ == old(self)@.with_catalog(
                        catalog.write_revoked(pool@, name, owner, selector, now),
                    )
                }
            }),
    {
        if let Err(error) = self.registry.validate(tenant) {
            return Err(error);
        }
        match self.catalog.object.revoke_put_lookup(
            pool,
            ObjectLookup::new(tenant.namespace, key),
            owner,
            selector,
            now,
        ) {
            Ok(()) => Ok(()),
            Err(error) => Err(TenantObjectError::Object(error)),
        }
    }

    pub fn get(&mut self, pool: &SegmentPool, tenant: &ResolvedTenant, key: &str, now: CatalogTick) -> (found: Result<
        ObjectRead,
        TenantGetError,
    >)
        requires
            old(self).wf(),
            pool.wf(),
        ensures
            final(self).wf(),
            ({
                let catalog = old(self)@.objects.catalog;
                let name = (tenant.namespace.value, key@);
                if !old(self)@.tenants.is_valid(*tenant) {
                    &&& found == Err::<ObjectRead, TenantGetError>(
                        TenantGetError::Tenant(TenantObjectError::InvalidTenantHandle),
                    )
                    &&& final(self)@ == old(self)@
                } else {
                    &&& final(self)@ == old(self)@.with_catalog(catalog.after_get(pool@, name, now))
                    &&& match found {
                        Ok(read) => catalog.get_matches(
                            final(self)@.objects.catalog,
                            pool@,
                            name,
                            Ok(read),
                        ),
                        Err(TenantGetError::Lookup(error)) => catalog.get_matches(
                            final(self)@.objects.catalog,
                            pool@,
                            name,
                            Err(error),
                        ),
                        Err(TenantGetError::Tenant(_)) => false,
                    }
                }
            }),
    {
        if let Err(error) = self.registry.validate(tenant) {
            return Err(TenantGetError::Tenant(error));
        }
        match self.catalog.object.get(pool, ObjectLookup::new(tenant.namespace, key), now) {
            Ok(read) => Ok(read),
            Err(error) => Err(TenantGetError::Lookup(error)),
        }
    }

    /// Gives back what a lookup returned.
    pub fn release_read(&mut self, read: ObjectRead)
        requires
            old(self).wf(),
        ensures
            final(self).wf(),
            final(self)@ == old(self)@.with_catalog(
                old(self)@.objects.catalog.version_released(
                    read.object.catalog_id,
                    read.object.slot,
                    read.object.origin.value,
                ),
            ),
    {
        self.catalog.object.release_read(read);
    }

    /// Whether an object can be read. Asking counts as a read.
    pub fn object_exists(
        &mut self,
        pool: &SegmentPool,
        tenant: &ResolvedTenant,
        key: &str,
        now: CatalogTick,
    ) -> (found: Result<bool, TenantObjectError>)
        requires
            old(self).wf(),
            pool.wf(),
        ensures
            final(self).wf(),
            ({
                let catalog = old(self)@.objects.catalog;
                let name = (tenant.namespace.value, key@);
                if !old(self)@.tenants.is_valid(*tenant) {
                    &&& found == Err::<bool, TenantObjectError>(
                        TenantObjectError::InvalidTenantHandle,
                    )
                    &&& final(self)@ == old(self)@
                } else {
                    &&& found == Ok::<bool, TenantObjectError>(
                        catalog.get_result(pool@, name) is Ok,
                    )
                    &&& final(self)@ == old(self)@.with_catalog(catalog.probed(pool@, name, now))
                }
            }),
    {
        if let Err(error) = self.registry.validate(tenant) {
            return Err(error);
        }
        Ok(
            self.catalog.object.object_exists(
                pool,
                ObjectLookup::new(tenant.namespace, key),
                now,
            ),
        )
    }

    pub fn remove(&mut self, tenant: &ResolvedTenant, key: &str, now: CatalogTick, force: bool) -> (removed: Result<
        (),
        TenantRemoveError,
    >)
        requires
            old(self).wf(),
        ensures
            final(self).wf(),
            ({
                let catalog = old(self)@.objects.catalog;
                let name = (tenant.namespace.value, key@);
                if !old(self)@.tenants.is_valid(*tenant) {
                    &&& removed == Err::<(), TenantRemoveError>(
                        TenantRemoveError::Tenant(TenantObjectError::InvalidTenantHandle),
                    )
                    &&& final(self)@ == old(self)@
                } else {
                    &&& removed == match catalog.removal(name, now, force) {
                        Ok(()) => Ok::<(), TenantRemoveError>(()),
                        Err(error) => Err(TenantRemoveError::Remove(error)),
                    }
                    &&& final(self)@ == old(self)@.with_catalog(catalog.removed(name, now, force))
                }
            }),
    {
        if let Err(error) = self.registry.validate(tenant) {
            return Err(TenantRemoveError::Tenant(error));
        }
        match self.catalog.object.remove(ObjectLookup::new(tenant.namespace, key), now, force) {
            Ok(()) => Ok(()),
            Err(error) => Err(TenantRemoveError::Remove(error)),
        }
    }

    /// Removes objects one after the other.
    pub fn remove_batch(
        &mut self,
        tenant: &ResolvedTenant,
        keys: &Vec<&str>,
        now: CatalogTick,
        force: bool,
    ) -> (done: Result<Vec<Result<(), ObjectRemoveError>>, TenantObjectError>)
        requires
            old(self).wf(),
        ensures
            final(self).wf(),
            if old(self)@.tenants.is_valid(*tenant) {
                let names = names_in(tenant.namespace, keys@);
                &&& done matches Ok(results) && results@.len() == keys@.len() && forall|i: int|
                    0 <= i < results@.len() ==> (#[trigger] results@[i]) == old(
                        self,
                    )@.objects.catalog.removed_all(names.take(i), now, force).removal(names[i], now, force)
                &&& final(self)@ == old(self)@.with_catalog(
                    old(self)@.objects.catalog.removed_all(names, now, force),
                )
            } else {
                &&& done == Err::<Vec<Result<(), ObjectRemoveError>>, TenantObjectError>(
                    TenantObjectError::InvalidTenantHandle,
                )
                &&& final(self)@ == old(self)@
            },
    {
        if let Err(error) = self.registry.validate(tenant) {
            return Err(error);
        }
        let ghost before = self@;
        let ghost names = names_in(tenant.namespace, keys@);
        let mut results: Vec<Result<(), ObjectRemoveError>> = Vec::new();
        let mut i: usize = 0;
        proof {
            assert(names.take(0) =~= Seq::empty());
            assert(before == before.with_catalog(before.objects.catalog));
        }
        while i < keys.len()
            invariant
                i <= keys@.len(),
                results@.len() == i,
                self.wf(),
                    names == names_in(tenant.namespace, keys@),
                self@ == before.with_catalog(
                    before.objects.catalog.removed_all(names.take(i as int), now, force),
                ),
                forall|j: int|
                    0 <= j < i ==> (#[trigger] results@[j]) == before.objects.catalog.removed_all(
                        names.take(j),
                        now, force,
                    ).removal(names[j], now, force),
            decreases keys@.len() - i,
        {
            proof {
                assert(names.take(i as int + 1).drop_last() =~= names.take(i as int));
                assert(names.take(i as int + 1).last() == names[i as int]);
            }
            let lookup = ObjectLookup::new(tenant.namespace, keys[i]);
            let one = self.catalog.object.remove(lookup, now, force);
            results.push(one);
            i = i + 1;
        }
        assert(names.take(i as int) =~= names);
        Ok(results)
    }

    /// Whether objects can be read. Asking counts as a read.
    pub fn exists_batch(
        &mut self,
        pool: &SegmentPool,
        tenant: &ResolvedTenant,
        keys: &Vec<&str>,
        now: CatalogTick,
    ) -> (done: Result<Vec<bool>, TenantObjectError>)
        requires
            old(self).wf(),
            pool.wf(),
        ensures
            final(self).wf(),
            if old(self)@.tenants.is_valid(*tenant) {
                let names = names_in(tenant.namespace, keys@);
                &&& done matches Ok(results) && results@.len() == keys@.len() && forall|i: int|
                    0 <= i < results@.len() ==> (#[trigger] results@[i]) == old(
                        self,
                    )@.objects.catalog.probed_all(names.take(i), pool@, now).could_be_read(pool@, names[i])
                &&& final(self)@ == old(self)@.with_catalog(
                    old(self)@.objects.catalog.probed_all(names, pool@, now),
                )
            } else {
                &&& done == Err::<Vec<bool>, TenantObjectError>(
                    TenantObjectError::InvalidTenantHandle,
                )
                &&& final(self)@ == old(self)@
            },
    {
        if let Err(error) = self.registry.validate(tenant) {
            return Err(error);
        }
        let ghost before = self@;
        let ghost names = names_in(tenant.namespace, keys@);
        let mut results: Vec<bool> = Vec::new();
        let mut i: usize = 0;
        proof {
            assert(names.take(0) =~= Seq::empty());
            assert(before == before.with_catalog(before.objects.catalog));
        }
        while i < keys.len()
            invariant
                i <= keys@.len(),
                results@.len() == i,
                self.wf(),
                pool.wf(),
                names == names_in(tenant.namespace, keys@),
                self@ == before.with_catalog(
                    before.objects.catalog.probed_all(names.take(i as int), pool@, now),
                ),
                forall|j: int|
                    0 <= j < i ==> (#[trigger] results@[j]) == before.objects.catalog.probed_all(
                        names.take(j),
                        pool@, now,
                    ).could_be_read(pool@, names[j]),
            decreases keys@.len() - i,
        {
            proof {
                assert(names.take(i as int + 1).drop_last() =~= names.take(i as int));
                assert(names.take(i as int + 1).last() == names[i as int]);
            }
            let lookup = ObjectLookup::new(tenant.namespace, keys[i]);
            let one = self.catalog.object.object_exists(pool, lookup, now);
            results.push(one);
            i = i + 1;
        }
        assert(names.take(i as int) =~= names);
        Ok(results)
    }

    /// Finishes writes one after the other.
    pub fn finish_put_batch_at(
        &mut self,
        pool: &SegmentPool,
        tenant: &ResolvedTenant,
        keys: &Vec<&str>,
        owner: WriteOwner,
        selector: ReplicaSelector,
        now: CatalogTick,
    ) -> (done: Result<Vec<Result<(), ObjectManagerError>>, TenantObjectError>)
        requires
            old(self).wf(),
            pool.wf(),
        ensures
            final(self).wf(),
            if old(self)@.tenants.is_valid(*tenant) {
                let names = names_in(tenant.namespace, keys@);
                &&& done matches Ok(results) && results@.len() == keys@.len() && forall|i: int|
                    0 <= i < results@.len() ==> (#[trigger] results@[i]) == old(
                        self,
                    )@.objects.catalog.finished_all(names.take(i), pool@, owner, selector, now).finish_result(pool@, names[i], owner, selector)
                &&& final(self)@ == old(self)@.with_catalog(
                    old(self)@.objects.catalog.finished_all(names, pool@, owner, selector, now),
                )
            } else {
                &&& done == Err::<Vec<Result<(), ObjectManagerError>>, TenantObjectError>(
                    TenantObjectError::InvalidTenantHandle,
                )
                &&& final(self)@ == old(self)@
            },
    {
        if let Err(error) = self.registry.validate(tenant) {
            return Err(error);
        }
        let ghost before = self@;
        let ghost names = names_in(tenant.namespace, keys@);
        let mut results: Vec<Result<(), ObjectManagerError>> = Vec::new();
        let mut i: usize = 0;
        proof {
            assert(names.take(0) =~= Seq::empty());
            assert(before == before.with_catalog(before.objects.catalog));
        }
        while i < keys.len()
            invariant
                i <= keys@.len(),
                results@.len() == i,
                self.wf(),
                pool.wf(),
                names == names_in(tenant.namespace, keys@),
                self@ == before.with_catalog(
                    before.objects.catalog.finished_all(names.take(i as int), pool@, owner, selector, now),
                ),
                forall|j: int|
                    0 <= j < i ==> (#[trigger] results@[j]) == before.objects.catalog.finished_all(
                        names.take(j),
                        pool@, owner, selector, now,
                    ).finish_result(pool@, names[j], owner, selector),
            decreases keys@.len() - i,
        {
            proof {
                assert(names.take(i as int + 1).drop_last() =~= names.take(i as int));
                assert(names.take(i as int + 1).last() == names[i as int]);
            }
            let lookup = ObjectLookup::new(tenant.namespace, keys[i]);
            let one = self.catalog.object.finish_put_lookup_at(pool, lookup, owner, selector, now);
            results.push(one);
            i = i + 1;
        }
        assert(names.take(i as int) =~= names);
        Ok(results)
    }

    /// Finishes writes one after the other at the beginning of time.
    pub fn finish_put_batch(
        &mut self,
        pool: &SegmentPool,
        tenant: &ResolvedTenant,
        keys: &Vec<&str>,
        owner: WriteOwner,
        selector: ReplicaSelector,
    ) -> (done: Result<Vec<Result<(), ObjectManagerError>>, TenantObjectError>)
        requires
            old(self).wf(),
            pool.wf(),
        ensures
            final(self).wf(),
            if old(self)@.tenants.is_valid(*tenant) {
                let names = names_in(tenant.namespace, keys@);
                let now = CatalogTick { value: 0 };
                &&& done matches Ok(results) && results@.len() == keys@.len() && forall|i: int|
                    0 <= i < results@.len() ==> (#[trigger] results@[i]) == old(
                        self,
                    )@.objects.catalog.finished_all(
                        names.take(i),
                        pool@,
                        owner,
                        selector,
                        now,
                    ).finish_result(pool@, names[i], owner, selector)
                &&& final(self)@ == old(self)@.with_catalog(
                    old(self)@.objects.catalog.finished_all(names, pool@, owner, selector, now),
                )
            } else {
                &&& done == Err::<Vec<Result<(), ObjectManagerError>>, TenantObjectError>(
                    TenantObjectError::InvalidTenantHandle,
                )
                &&& final(self)@ == old(self)@
            },
    {
        self.finish_put_batch_at(pool, tenant, keys, owner, selector, CatalogTick::new(0))
    }

    /// Revokes writes one after the other.
    pub fn revoke_put_batch(
        &mut self,
        pool: &SegmentPool,
        tenant: &ResolvedTenant,
        keys: &Vec<&str>,
        owner: WriteOwner,
        selector: ReplicaSelector,
        now: CatalogTick,
    ) -> (done: Result<Vec<Result<(), ObjectManagerError>>, TenantObjectError>)
        requires
            old(self).wf(),
            pool.wf(),
        ensures
            final(self).wf(),
            if old(self)@.tenants.is_valid(*tenant) {
                let names = names_in(tenant.namespace, keys@);
                &&& done matches Ok(results) && results@.len() == keys@.len() && forall|i: int|
                    0 <= i < results@.len() ==> (#[trigger] results@[i]) == old(
                        self,
                    )@.objects.catalog.revoked_all(names.take(i), pool@, owner, selector, now).revoke_result(pool@, names[i], owner, selector)
                &&& final(self)@ == old(self)@.with_catalog(
                    old(self)@.objects.catalog.revoked_all(names, pool@, owner, selector, now),
                )
            } else {
                &&& done == Err::<Vec<Result<(), ObjectManagerError>>, TenantObjectError>(
                    TenantObjectError::InvalidTenantHandle,
                )
                &&& final(self)@ == old(self)@
            },
    {
        if let Err(error) = self.registry.validate(tenant) {
            return Err(error);
        }
        let ghost before = self@;
        let ghost names = names_in(tenant.namespace, keys@);
        let mut results: Vec<Result<(), ObjectManagerError>> = Vec::new();
        let mut i: usize = 0;
        proof {
            assert(names.take(0) =~= Seq::empty());
            assert(before == before.with_catalog(before.objects.catalog));
        }
        while i < keys.len()
            invariant
                i <= keys@.len(),
                results@.len() == i,
                self.wf(),
                pool.wf(),
                names == names_in(tenant.namespace, keys@),
                self@ == before.with_catalog(
                    before.objects.catalog.revoked_all(names.take(i as int), pool@, owner, selector, now),
                ),
                forall|j: int|
                    0 <= j < i ==> (#[trigger] results@[j]) == before.objects.catalog.revoked_all(
                        names.take(j),
                        pool@, owner, selector, now,
                    ).revoke_result(pool@, names[j], owner, selector),
            decreases keys@.len() - i,
        {
            proof {
                assert(names.take(i as int + 1).drop_last() =~= names.take(i as int));
                assert(names.take(i as int + 1).last() == names[i as int]);
            }
            let lookup = ObjectLookup::new(tenant.namespace, keys[i]);
            let one = self.catalog.object.revoke_put_lookup(pool, lookup, owner, selector, now);
            results.push(one);
            i = i + 1;
        }
        assert(names.take(i as int) =~= names);
        Ok(results)
    }

    /// Looks objects up one after the other.
    pub fn get_batch(
        &mut self,
        pool: &SegmentPool,
        tenant: &ResolvedTenant,
        keys: &Vec<&str>,
        now: CatalogTick,
    ) -> (done: Result<Vec<Result<ObjectRead, LookupError>>, TenantObjectError>)
        requires
            old(self).wf(),
            pool.wf(),
        ensures
            final(self).wf(),
            if old(self)@.tenants.is_valid(*tenant) {
                &&& final(self)@ == old(self)@.with_catalog(final(self)@.objects.catalog)
                &&& done matches Ok(found) && finds_all(
                    old(self)@.objects.catalog,
                    final(self)@.objects.catalog,
                    pool@,
                    names_in(tenant.namespace, keys@),
                    now,
                    found@,
                )
            } else {
                &&& done == Err::<Vec<Result<ObjectRead, LookupError>>, TenantObjectError>(
                    TenantObjectError::InvalidTenantHandle,
                )
                &&& final(self)@ == old(self)@
            },
    {
        if let Err(error) = self.registry.validate(tenant) {
            return Err(error);
        }
        let ghost names = names_in(tenant.namespace, keys@);
        let mut lookups: Vec<ObjectLookup> = Vec::new();
        let mut i: usize = 0;
        while i < keys.len()
            invariant
                i <= keys@.len(),
                names == names_in(tenant.namespace, keys@),
                names_of(lookups@) == names.take(i as int),
            decreases keys@.len() - i,
        {
            let ghost before = lookups@;
            lookups.push(ObjectLookup::new(tenant.namespace, keys[i]));
            proof {
                assert(names_of(lookups@) =~= names_of(before).push(lookups@.last()@));
                assert(names.take(i as int + 1) =~= names.take(i as int).push(names[i as int]));
            }
            i = i + 1;
        }
        assert(names.take(i as int) =~= names);
        let ghost before = self@;
        let found = self.catalog.object.get_batch(pool, &lookups, now);
        proof {
            assert(self@ == before.with_catalog(self@.objects.catalog));
            let trail = choose|trail: Seq<CatalogView>|
                {
                    &&& #[trigger] batch_trail(trail, pool@, names_of(lookups@), now, found@)
                    &&& trail[0] == before.objects.catalog
                    &&& trail.last() == self@.objects.catalog
                };
            assert(batch_trail(trail, pool@, names, now, found@));
            assert(finds_all(
                before.objects.catalog,
                self@.objects.catalog,
                pool@,
                names,
                now,
                found@,
            ));
        }
        Ok(found)
    }

    /// Removes the committed objects of a tenant whose keys match a pattern, and
    /// counts how many were removed.
    pub fn remove_matching(
        &mut self,
        tenant: &ResolvedTenant,
        pattern: Option<&regex::Regex>,
        now: CatalogTick,
        force: bool,
    ) -> (removed: Result<usize, TenantObjectError>)
        requires
            old(self).wf(),
        ensures
            final(self).wf(),
            final(self)@.tenants == old(self)@.tenants,
            if old(self)@.tenants.is_valid(*tenant) {
                removed matches Ok(count) && clears(
                    old(self)@.objects,
                    final(self)@.objects,
                    tenant.namespace,
                    pattern,
                    now,
                    force,
                    count as int,
                )
            } else {
                &&& removed == Err::<usize, TenantObjectError>(
                    TenantObjectError::InvalidTenantHandle,
                )
                &&& final(self)@ == old(self)@
            },
    {
        if let Err(error) = self.registry.validate(tenant) {
            return Err(error);
        }
        Ok(self.catalog.object.remove_matching(tenant.namespace, pattern, now, force))
    }

    /// Removes the committed objects of all registered tenants, and counts how
    /// many were removed, as far as the count goes.
    pub fn remove_all_tenants(&mut self, now: CatalogTick, force: bool) -> (removed: usize)
        requires
            old(self).wf(),
        ensures
            final(self).wf(),
            final(self)@.tenants == old(self)@.tenants,
            exists|count: int| #[trigger]
                clears_all(
                    old(self)@.objects,
                    final(self)@.objects,
                    registered_namespaces(old(self)@.tenants.entries),
                    now,
                    force,
                    count,
                ) && removed == if count > usize::MAX {
                    usize::MAX as int
                } else {
                    count
                },
    {
        let ghost before = self@;
        let namespaces = self.registry.registered();
        let ghost mut count: int = 0;
        let mut removed: usize = 0;
        let mut i: usize = 0;
        assert(namespaces@.take(0) =~= Seq::empty());
        while i < namespaces.len()
            invariant
                i <= namespaces@.len(),
                self.wf(),
                self@.tenants == before.tenants,
                count >= 0,
                removed == if count > usize::MAX {
                    usize::MAX as int
                } else {
                    count
                },
                clears_all(
                    before.objects,
                    self@.objects,
                    namespaces@.take(i as int),
                    now,
                    force,
                    count,
                ),
            decreases namespaces@.len() - i,
        {
            let ghost middle = self@.objects;
            let ghost earlier = count;
            let namespace = NamespaceId::new(namespaces[i]);
            let one: usize = self.catalog.object.remove_matching(namespace, None, now, force);
            removed = removed.saturating_add(one);
            proof {
                count = count + one;
                assert(namespaces@.take(i as int + 1).drop_last() =~= namespaces@.take(i as int));
                assert(namespaces@.take(i as int + 1).last() == namespaces@[i as int]);
                assert(count - earlier == one as int);
                assert(clears(middle, self@.objects, namespace, None, now, force, one as int));
                assert(clears_next(
                    middle,
                    earlier,
                    self@.objects,
                    namespaces@[i as int],
                    now,
                    force,
                    count,
                ));
                assert(clears_all(
                    before.objects,
                    self@.objects,
                    namespaces@.take(i as int + 1),
                    now,
                    force,
                    count,
                ));
            }
            i = i + 1;
        }
        assert(namespaces@.take(i as int) =~= namespaces@);
        removed
    }

    /// Runs a bounded maintenance round. Tenants that hold more than they are
    /// promised are reclaimed from first.
    pub fn maintenance(&mut self, pool: &mut SegmentPool, now: CatalogTick, budget: CollectBudget) -> (done: ObjectManagerMaintenance)
        requires
            old(self).wf(),
            old(pool).wf(),
        ensures
            final(self).wf(),
            final(pool).wf(),
            exists|targets: Seq<ReclaimTarget>| #[trigger]
                old(self)@.refreshed(old(pool)@).maintained(
                    final(self)@,
                    old(pool)@,
                    final(pool)@,
                    now,
                    budget,
                    targets,
                    done.catalog,
                ),
            done.expired_writes == done.catalog.expired_pending,
            done.memory_eviction == match final(self)@.objects.eviction {
                Some(controller) => Some(controller.stats),
                None => None,
            },
    {
        self.registry.refresh_capacity(&mut self.catalog.object, pool);
        let targets = self.registry.reclaim_targets(&self.catalog.object);
        let ghost wanted = targets@;
        let ghost refreshed = old(self)@.refreshed(old(pool)@);
        let ghost asked = self@;
        let done = self.catalog.object.maintenance_with_targets(pool, now, budget, targets);
        proof {
            assert(asked.objects == refreshed.objects);
            assert(refreshed.maintained(
                self@,
                old(pool)@,
                pool@,
                now,
                budget,
                wanted,
                done.catalog,
            ));
        }
        done
    }

    /// Registers a tenant or gives it another policy.
    pub fn upsert_tenant(&mut self, pool: &SegmentPool, id: TenantId, policy: TenantPolicy) -> (upserted: Result<
        ResolvedTenant,
        TenantAdminError,
    >)
        requires
            old(self).wf(),
            pool.wf(),
        ensures
            final(self).wf(),
            ({
                let before = old(self)@.tenancy();
                let after = before.upserted(id@, policy, pool@);
                match before.upsert_fault(id@) {
                    Some(fault) => {
                        &&& upserted == Err::<ResolvedTenant, TenantAdminError>(fault)
                        &&& final(self)@ == old(self)@
                    },
                    None => {
                        &&& final(self)@ == old(self)@.with_tenancy(after)
                        &&& after.tenants.position(id@) is Some
                        &&& upserted == Ok::<ResolvedTenant, TenantAdminError>(
                            after.tenants.handle(after.tenants.position(id@).unwrap()),
                        )
                    },
                }
            }),
    {
        self.registry.upsert(&mut self.catalog.object, pool, id, policy)
    }

    /// Removes a tenant that stores nothing.
    pub fn delete_tenant(&mut self, pool: &SegmentPool, id: &TenantId) -> (deleted: Result<
        (),
        TenantAdminError,
    >)
        requires
            old(self).wf(),
            pool.wf(),
        ensures
            final(self).wf(),
            ({
                let before = old(self)@.tenancy();
                match before.delete_fault(id@) {
                    Some(fault) => {
                        &&& deleted == Err::<(), TenantAdminError>(fault)
                        &&& final(self)@ == old(self)@
                    },
                    None => {
                        &&& deleted is Ok
                        &&& final(self)@ == old(self)@.with_tenancy(before.deleted(id@, pool@))
                    },
                }
            }),
    {
        self.registry.delete(&mut self.catalog.object, pool, id)
    }

    /// What a registered tenant looks like.
    pub fn tenant_snapshot(&self, id: &TenantId) -> (snapshot: Option<TenantSnapshot>)
        requires
            self.wf(),
        ensures
            match self@.tenants.position(id@) {
                Some(i) => if self@.tenants.entries[i].registered && !self@.tenants.single {
                    snapshot matches Some(shown) && shown@ == self@.tenants.entries[i].shown(
                        self@.objects.catalog.accounts[self@.tenants.entries[i].namespace],
                    )
                } else {
                    snapshot is None
                },
                None => snapshot is None,
            },
    {
        self.registry.snapshot(&self.catalog.object, id)
    }

    /// What the registered tenants look like, in the order of their ids.
    pub fn list_tenants(&self) -> (tenants: Vec<TenantSnapshot>)
        requires
            self.wf(),
        ensures
            tenants@.map_values(|tenant: TenantSnapshot| tenant@) == self@.tenancy().listed(),
    {
        self.registry.list(&self.catalog.object)
    }
}

} // verus!
