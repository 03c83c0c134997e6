use cakemaster::client::lifecycle::{ClientRegistry, ClientTick};
use cakemaster::object::catalog::write::WriteResolution;
use cakemaster::object::catalog::ObjectCatalog;
use cakemaster::object::config::{ObjectCatalogConfig, ObjectPinRequest, SoftPinAction};
use cakemaster::object::content::ObjectContent;
use cakemaster::object::error::{
    AbortError, BeginError, CommitError, LookupError, ObjectCatalogConfigError,
    ObjectManagerError, ObjectRemoveError, RemoveError, StageError,
};
use cakemaster::object::diagnostics::ObjectCatalogStats;
use cakemaster::object::eviction::{
    scale_bytes, MemoryEvictionConfig, MemoryEvictionConfigError, MemoryEvictionController,
};
use cakemaster::object::identity::{NamespaceId, ObjectIdentity, ObjectLookup};
use cakemaster::object::manager::{ObjectManager, ObjectPutPlan, ReplicaSelector};
use cakemaster::object::reclamation::{CatalogTick, CollectBudget, ReclaimFilter, ReclaimTarget};
use cakemaster::object::replica::ReplicaSet;
use cakemaster::object::write::{ObjectCommit, WriteAdmission, WriteMode, WriteOwner};
use cakemaster::segment::descriptor::MemoryRegion;
use cakemaster::segment::identity::{ClientId, SegmentId, SegmentIdentity};
use cakemaster::segment::placement::{
    AllocationSpec, PlacementRequest, ReplicaAllocator, ReplicaPolicy,
};
use cakemaster::segment::pool::SegmentPool;
use cakemaster::segment::spec::{ReplicaClass, SegmentSpec};
use cakemaster::segment::stats::ReplicaClassSpaceStats;
use std::hash::{BuildHasher, RandomState};
use cakemaster::segment::transport::{TransportEndpoint, TransportProtocol};

fn client() -> ClientId {
    ClientId::new(1, 1)
}

fn pool_of(segments: u64, size: u64) -> SegmentPool {
    let mut pool = SegmentPool::new(1);
    for number in 1..=segments {
        pool.attach(SegmentSpec::memory(
            SegmentIdentity::new(SegmentId::new(0, number), client(), format!("s{number}")),
            MemoryRegion::new(number * 0x10_0000_0000, size),
            TransportEndpoint::new(TransportProtocol::Tcp, "10.0.0.1:1".to_owned()),
        ))
        .unwrap();
    }
    pool
}

fn name(key: &str) -> ObjectIdentity {
    ObjectIdentity::new(NamespaceId::default(), key.to_owned())
}

fn lookup(key: &str) -> ObjectLookup<'_> {
    ObjectLookup::new(NamespaceId::default(), key)
}

fn at(value: u64) -> CatalogTick {
    CatalogTick::new(value)
}

fn plan(bytes: u64, replicas: usize) -> ObjectPutPlan {
    ObjectPutPlan::new(
        ObjectContent::new(bytes),
        PlacementRequest::new(AllocationSpec::new(bytes), ReplicaPolicy::new(replicas)),
    )
}

fn admission() -> WriteAdmission {
    WriteAdmission::unmanaged(client())
}

fn replicas(pool: &mut SegmentPool, bytes: u64) -> ReplicaSet {
    let request = PlacementRequest::new(AllocationSpec::new(bytes), ReplicaPolicy::new(1));
    ReplicaSet::from_reservations(ReplicaAllocator::new().reserve(pool, &request).unwrap())
}

fn put(manager: &mut ObjectManager, pool: &mut SegmentPool, key: &str, bytes: u64, now: u64) {
    let sessions = ClientRegistry::new();
    manager
        .start_put(pool, &sessions, name(key), admission(), &plan(bytes, 1), at(now))
        .unwrap();
    manager
        .finish_put_at(pool, &name(key), admission().owner(), ReplicaSelector::All, at(now))
        .unwrap();
}

#[test]
fn a_write_goes_from_claim_to_commit() {
    let mut pool = pool_of(1, 4096);
    let sessions = ClientRegistry::new();
    let mut catalog = ObjectCatalog::new(9);
    let claim = catalog
        .begin_write(
            name("k"),
            admission(),
            WriteMode::Insert,
            ObjectPinRequest::default(),
            at(0),
        )
        .unwrap();
    assert_eq!(catalog.stats().claims, 1);
    assert!(matches!(catalog.get(&pool, lookup("k"), at(0)), Err(LookupError::NotReady)));
    let set = replicas(&mut pool, 128);
    let transaction =
        claim.stage(&mut catalog, &pool, &sessions, ObjectContent::new(100), set).unwrap();
    assert_eq!(catalog.stats().pending_objects, 1);
    assert_eq!(
        catalog
            .begin_write(
                name("k"),
                admission(),
                WriteMode::Upsert,
                ObjectPinRequest::default(),
                at(0),
            )
            .unwrap_err(),
        BeginError::WriteInProgress
    );
    let commit = ObjectCommit::new(Some(7));
    let handle = catalog.commit(&pool, &transaction, commit, at(1)).unwrap();
    assert_eq!(handle.commit(), commit);
    assert_eq!(handle.content().logical_bytes(), 100);
    let again = catalog.commit(&pool, &transaction, commit, at(1)).unwrap();
    assert_eq!(again.version_id(), handle.version_id());
    assert_eq!(
        catalog.commit(&pool, &transaction, ObjectCommit::new(None), at(1)).unwrap_err(),
        CommitError::CommitConflict
    );
    let read = catalog.get(&pool, lookup("k"), at(2)).unwrap();
    assert_eq!(read.lease_expires_at(), at(10_002));
    assert!(read.is_live(&catalog, &pool));
    let live = read.object().replicas(&catalog, &pool).unwrap();
    assert_eq!(live.len(), 1);
    assert_eq!(live.first().unwrap().capacity_bytes(), 128);
    assert_eq!(
        catalog
            .begin_write(
                name("k"),
                admission(),
                WriteMode::Insert,
                ObjectPinRequest::default(),
                at(0),
            )
            .unwrap_err(),
        BeginError::AlreadyExists
    );
}

#[test]
fn staging_checks_what_it_is_given() {
    let mut pool = pool_of(1, 4096);
    let sessions = ClientRegistry::new();
    let mut catalog = ObjectCatalog::new(9);
    let begin = |catalog: &mut ObjectCatalog| {
        catalog
            .begin_write(
                name("k"),
                admission(),
                WriteMode::Insert,
                ObjectPinRequest::default(),
                at(0),
            )
            .unwrap()
    };
    let claim = begin(&mut catalog);
    let set = replicas(&mut pool, 64);
    let failure =
        claim.stage(&mut catalog, &pool, &sessions, ObjectContent::new(0), set).unwrap_err();
    assert_eq!(failure.error, StageError::ZeroSize);
    assert_eq!(failure.replicas.len(), 1);
    assert_eq!(catalog.stats().claims, 0);
    let claim = begin(&mut catalog);
    let failure = claim
        .stage(
            &mut catalog,
            &pool,
            &sessions,
            ObjectContent::new(1),
            ReplicaSet::new(Vec::new()),
        )
        .unwrap_err();
    assert_eq!(failure.error, StageError::NoReplicas);
    assert_eq!(
        catalog
            .begin_write(
                name(""),
                admission(),
                WriteMode::Insert,
                ObjectPinRequest::default(),
                at(0),
            )
            .unwrap_err(),
        BeginError::EmptyKey
    );
}

#[test]
fn an_upsert_leaves_the_old_version_readable() {
    let mut pool = pool_of(1, 4096);
    let sessions = ClientRegistry::new();
    let mut manager = ObjectManager::new(9, &pool);
    put(&mut manager, &mut pool, "k", 100, 0);
    manager
        .start_upsert(&mut pool, &sessions, name("k"), admission(), &plan(200, 1), at(1))
        .unwrap();
    let read = manager.get(&pool, lookup("k"), at(1)).unwrap();
    assert_eq!(read.object().content().logical_bytes(), 100);
    manager.release_read(read);
    manager
        .revoke_put(&pool, &name("k"), admission().owner(), ReplicaSelector::All, at(1))
        .unwrap();
    let read = manager.get(&pool, lookup("k"), at(1)).unwrap();
    assert_eq!(read.object().content().logical_bytes(), 100);
    manager.release_read(read);
    manager
        .start_upsert(&mut pool, &sessions, name("k"), admission(), &plan(200, 1), at(1))
        .unwrap();
    manager
        .finish_put(&pool, &name("k"), admission().owner(), ReplicaSelector::All)
        .unwrap();
    manager
        .finish_put(&pool, &name("k"), admission().owner(), ReplicaSelector::All)
        .unwrap();
    let read = manager.get(&pool, lookup("k"), at(2)).unwrap();
    assert_eq!(read.object().content().logical_bytes(), 200);
}

#[test]
fn finishing_is_for_the_owner() {
    let mut pool = pool_of(1, 4096);
    let sessions = ClientRegistry::new();
    let mut manager = ObjectManager::new(9, &pool);
    let owner = admission().owner();
    assert_eq!(
        manager.finish_put(&pool, &name("k"), owner, ReplicaSelector::All),
        Err(ObjectManagerError::NotFound)
    );
    manager
        .start_put(&mut pool, &sessions, name("k"), admission(), &plan(10, 1), at(0))
        .unwrap();
    assert_eq!(
        manager.finish_put(
            &pool,
            &name("k"),
            WriteOwner::new(ClientId::new(2, 2)),
            ReplicaSelector::All
        ),
        Err(ObjectManagerError::IllegalOwner)
    );
    assert_eq!(
        manager.finish_put(
            &pool,
            &name("k"),
            owner,
            ReplicaSelector::Class(ReplicaClass::LocalSsd)
        ),
        Err(ObjectManagerError::ReplicaClassMismatch {
            requested: ReplicaClass::LocalSsd,
            actual: ReplicaClass::Memory,
        })
    );
    manager.finish_put(&pool, &name("k"), owner, ReplicaSelector::All).unwrap();
    assert_eq!(
        manager.revoke_put(&pool, &name("k"), owner, ReplicaSelector::All, at(1)),
        Err(ObjectManagerError::InvalidWrite)
    );
    assert_eq!(
        manager
            .start_put(&mut pool, &sessions, name("k"), admission(), &plan(10, 1), at(1))
            .unwrap_err(),
        ObjectManagerError::AlreadyExists
    );
    assert_eq!(
        manager
            .start_put(&mut pool, &sessions, name("z"), admission(), &plan(0, 1), at(1))
            .unwrap_err(),
        ObjectManagerError::InvalidPlan
    );
}

#[test]
fn invalidated_replicas_cannot_be_committed() {
    let mut pool = pool_of(1, 4096);
    let sessions = ClientRegistry::new();
    let mut manager = ObjectManager::new(9, &pool);
    manager
        .start_put(&mut pool, &sessions, name("k"), admission(), &plan(10, 1), at(0))
        .unwrap();
    pool.invalidate_owner(client());
    assert_eq!(
        manager.finish_put(&pool, &name("k"), admission().owner(), ReplicaSelector::All),
        Err(ObjectManagerError::NoAvailableReplicas)
    );
}

#[test]
fn removal_respects_leases_and_pins() {
    let mut pool = pool_of(1, 4096);
    let sessions = ClientRegistry::new();
    let mut manager = ObjectManager::new(9, &pool);
    put(&mut manager, &mut pool, "leased", 10, 0);
    assert!(manager.object_exists(&pool, lookup("leased"), at(0)));
    assert_eq!(
        manager.remove(lookup("leased"), at(1), false),
        Err(ObjectRemoveError::Leased { expires_at: at(10_000) })
    );
    assert_eq!(manager.remove(lookup("leased"), at(1), true), Ok(()));
    assert_eq!(
        manager.remove(lookup("leased"), at(1), true),
        Err(ObjectRemoveError::NotFound)
    );
    let pinned = plan(10, 1).with_pins(ObjectPinRequest::new(SoftPinAction::Preserve, None, true));
    manager
        .start_put(&mut pool, &sessions, name("pinned"), admission(), &pinned, at(0))
        .unwrap();
    assert_eq!(
        manager.remove(lookup("pinned"), at(0), false),
        Err(ObjectRemoveError::NotReady)
    );
    manager
        .finish_put(&pool, &name("pinned"), admission().owner(), ReplicaSelector::All)
        .unwrap();
    assert_eq!(
        manager.remove(lookup("pinned"), at(50_000), false),
        Err(ObjectRemoveError::HardPinned)
    );
    assert_eq!(
        ObjectRemoveError::from(RemoveError::HardPinned),
        ObjectRemoveError::HardPinned
    );
}

#[test]
fn patterns_select_what_is_removed() {
    let mut pool = pool_of(1, 4096);
    let mut manager = ObjectManager::new(9, &pool);
    for key in ["a1", "a2", "b1"] {
        put(&mut manager, &mut pool, key, 10, 0);
    }
    let pattern = regex::Regex::new("^a").unwrap();
    assert_eq!(
        manager.remove_matching(NamespaceId::new(5), Some(&pattern), at(0), true),
        0
    );
    assert_eq!(
        manager.remove_matching(NamespaceId::default(), Some(&pattern), at(0), true),
        2
    );
    assert!(!manager.object_exists(&pool, lookup("a1"), at(0)));
    assert!(manager.object_exists(&pool, lookup("b1"), at(0)));
    assert_eq!(manager.remove_matching(NamespaceId::default(), None, at(0), true), 1);
    assert_eq!(manager.catalog().stats().published_objects, 0);
}

#[test]
fn removed_storage_is_released_when_no_reader_is_left() {
    let mut pool = pool_of(1, 4096);
    let mut manager = ObjectManager::new(9, &pool);
    put(&mut manager, &mut pool, "k", 1000, 0);
    let read = manager.get(&pool, lookup("k"), at(0)).unwrap();
    manager.remove(lookup("k"), at(0), true).unwrap();
    let budget = CollectBudget::default();
    let done = manager.maintenance(&mut pool, at(20_000), budget);
    assert_eq!(done.catalog.reclaimed_objects, 0);
    assert_eq!(manager.catalog().stats().retired_bytes, 1000);
    manager.release_read(read);
    let done = manager.maintenance(&mut pool, at(20_000), budget);
    assert_eq!(done.catalog.reclaimed_objects, 1);
    assert_eq!(done.catalog.reclaimed_bytes, 1000);
    assert_eq!(pool.space_for(ReplicaClass::Memory).used_bytes, 0);
}

#[test]
fn pending_writes_expire() {
    let mut pool = pool_of(1, 4096);
    let sessions = ClientRegistry::new();
    let mut manager = ObjectManager::new(9, &pool);
    manager
        .start_put(&mut pool, &sessions, name("k"), admission(), &plan(10, 1), at(0))
        .unwrap();
    let budget = CollectBudget::default();
    assert_eq!(manager.maintenance(&mut pool, at(29_999), budget).expired_writes, 0);
    assert_eq!(manager.maintenance(&mut pool, at(30_000), budget).expired_writes, 1);
    assert_eq!(
        manager.finish_put(&pool, &name("k"), admission().owner(), ReplicaSelector::All),
        Err(ObjectManagerError::NotFound)
    );
}

#[test]
fn reclaim_requests_evict_idle_objects() {
    let mut pool = pool_of(1, 4096);
    let mut catalog = ObjectCatalog::new(9);
    let sessions = ClientRegistry::new();
    for key in ["a", "b"] {
        let claim = catalog
            .begin_write(
                name(key),
                admission(),
                WriteMode::Insert,
                ObjectPinRequest::default(),
                at(0),
            )
            .unwrap();
        let set = replicas(&mut pool, 100);
        let transaction =
            claim.stage(&mut catalog, &pool, &sessions, ObjectContent::new(100), set).unwrap();
        let handle =
            catalog.commit(&pool, &transaction, ObjectCommit::default(), at(0)).unwrap();
        catalog.release_transaction(transaction);
        catalog.release_handle(handle);
    }
    catalog.request_reclaim(100);
    let mut retired = 0;
    for _ in 0..4 {
        retired += catalog
            .collect_step(&mut pool, at(1), CollectBudget::default())
            .retired_objects;
    }
    assert_eq!(retired, 1);
    assert_eq!(catalog.stats().published_objects, 1);
    let scope = ReclaimTarget {
        filter: ReclaimFilter::Scope {
            namespace: NamespaceId::default(),
            replica_class: ReplicaClass::Memory,
        },
        bytes: 1,
    };
    let mut collect = |target: ReclaimTarget, catalog: &mut ObjectCatalog| {
        catalog
            .collect_step_with_targets(&mut pool, at(1), CollectBudget::default(), &[target])
            .scoped_retired_objects
    };
    assert_eq!(collect(scope, &mut catalog), 0);
    let any = ReclaimTarget { filter: ReclaimFilter::Any, bytes: 1 };
    assert_eq!(collect(any, &mut catalog), 1);
    assert_eq!(catalog.stats().published_objects, 0);
}

#[test]
fn invalidated_segments_are_pruned() {
    let mut pool = pool_of(1, 4096);
    let mut manager = ObjectManager::new(9, &pool);
    put(&mut manager, &mut pool, "k", 10, 0);
    pool.invalidate_owner(client());
    assert!(!manager.object_exists(&pool, lookup("k"), at(0)));
    let mut gone = 0;
    for _ in 0..3 {
        let done = manager.maintenance(&mut pool, at(0), CollectBudget::default());
        gone += done.catalog.invalidated_published;
    }
    assert_eq!(gone, 1);
    assert_eq!(manager.catalog().stats().published_objects, 0);
}

#[test]
fn transactions_are_aborted_once() {
    let mut pool = pool_of(1, 4096);
    let sessions = ClientRegistry::new();
    let mut catalog = ObjectCatalog::new(9);
    let claim = catalog
        .begin_write(
            name("k"),
            admission(),
            WriteMode::Insert,
            ObjectPinRequest::default(),
            at(0),
        )
        .unwrap();
    let set = replicas(&mut pool, 10);
    let transaction =
        claim.stage(&mut catalog, &pool, &sessions, ObjectContent::new(10), set).unwrap();
    catalog.abort(&pool, &transaction, at(0)).unwrap();
    assert_eq!(
        catalog.abort(&pool, &transaction, at(0)).unwrap_err(),
        AbortError::TransactionGone
    );
    assert_eq!(
        catalog.commit(&pool, &transaction, ObjectCommit::default(), at(0)).unwrap_err(),
        CommitError::TransactionGone
    );
    let mut other = ObjectCatalog::new(10);
    assert_eq!(
        other.abort(&pool, &transaction, at(0)).unwrap_err(),
        AbortError::ForeignCatalog
    );
}

#[test]
fn writes_of_fenced_sessions_are_not_staged() {
    let mut pool = pool_of(1, 4096);
    let mut sessions = ClientRegistry::new();
    let session = sessions.activate(client(), ClientTick::new(0)).unwrap().session();
    let guarded = WriteAdmission::guarded(sessions.active_session_guard(client()).unwrap());
    sessions.rollback_activation(session).unwrap();
    let mut manager = ObjectManager::new(9, &pool);
    assert!(manager
        .start_put(&mut pool, &sessions, name("k"), guarded, &plan(10, 1), at(0))
        .is_err());
    assert_eq!(pool.space_for(ReplicaClass::Memory).used_bytes, 0);
}

#[test]
fn allocation_failures_evict_and_try_again() {
    let mut pool = pool_of(1, 1000);
    let sessions = ClientRegistry::new();
    let eviction = MemoryEvictionConfig::from_ppm(900_000, 800_000).unwrap();
    let config = ObjectCatalogConfig::new(8);
    let mut plain = ObjectManager::with_config(9, &pool, config).unwrap();
    put(&mut plain, &mut pool, "a", 800, 0);
    assert_eq!(
        plain
            .start_put(&mut pool, &sessions, name("b"), admission(), &plan(500, 1), at(1))
            .unwrap_err(),
        ObjectManagerError::NoAvailableReplicas
    );
    let mut pool = pool_of(1, 1000);
    let mut evicting = ObjectManager::with_eviction_config(9, &pool, config, eviction).unwrap();
    put(&mut evicting, &mut pool, "a", 800, 0);
    evicting
        .start_put(&mut pool, &sessions, name("b"), admission(), &plan(500, 1), at(1))
        .unwrap();
    let stats = evicting.memory_eviction_stats().unwrap();
    assert_eq!(stats.allocation_failures, 1);
    assert_eq!(stats.allocation_retry_successes, 1);
    assert!(!evicting.object_exists(&pool, lookup("a"), at(1)));
}

#[test]
fn watermarks_start_and_stop_eviction() {
    let mut pool = pool_of(1, 1000);
    let eviction = MemoryEvictionConfig::from_ppm(900_000, 500_000).unwrap();
    assert_eq!(eviction.high_bytes(1000), 900);
    assert_eq!(eviction.low_bytes(1000), 500);
    let mut manager =
        ObjectManager::with_eviction_config(9, &pool, ObjectCatalogConfig::new(8), eviction)
            .unwrap();
    for number in 0..9 {
        put(&mut manager, &mut pool, &format!("k{number}"), 100, 0);
    }
    manager.maintenance(&mut pool, at(1), CollectBudget::default());
    assert_eq!(pool.space_for(ReplicaClass::Memory).used_bytes, 900);
    put(&mut manager, &mut pool, "one more", 1, 0);
    for _ in 0..20 {
        manager.maintenance(&mut pool, at(1), CollectBudget::default());
    }
    assert!(pool.space_for(ReplicaClass::Memory).used_bytes <= 500);
    assert!(pool.space_for(ReplicaClass::Memory).used_bytes > 400);
    let stats = manager.memory_eviction_stats().unwrap();
    assert_eq!(stats.trigger_events, 1);
    assert!(!stats.active);
}

#[test]
fn watermarks_are_checked() {
    let made = |high, low| MemoryEvictionConfig::from_ppm(high, low).unwrap_err();
    assert_eq!(made(0, 1), MemoryEvictionConfigError::InvalidHighWatermark);
    assert_eq!(made(1_000_000, 1), MemoryEvictionConfigError::InvalidHighWatermark);
    assert_eq!(made(10, 0), MemoryEvictionConfigError::InvalidLowWatermark);
    assert_eq!(made(10, 10), MemoryEvictionConfigError::LowNotBelowHigh);
    let config = MemoryEvictionConfig::from_ppm(20, 10).unwrap();
    assert_eq!(
        config.with_allocation_failure_policy(CollectBudget::new(0, 1, 1), 1).unwrap_err(),
        MemoryEvictionConfigError::ZeroFailureCandidates
    );
    assert_eq!(
        config.with_allocation_failure_policy(CollectBudget::new(1, 0, 1), 1).unwrap_err(),
        MemoryEvictionConfigError::ZeroFailureReclaims
    );
    assert_eq!(
        config
            .with_allocation_failure_policy(CollectBudget::new(1, 1, 1), usize::MAX)
            .unwrap_err(),
        MemoryEvictionConfigError::TooManyAllocationRetries
    );
}

#[test]
fn catalog_settings_are_checked() {
    let fault = |config: ObjectCatalogConfig| config.validate().unwrap_err();
    let good = ObjectCatalogConfig::new(8);
    assert_eq!(good.validate(), Ok(()));
    assert_eq!(
        fault(ObjectCatalogConfig::new(0)),
        ObjectCatalogConfigError::ZeroExpectedObjects
    );
    assert_eq!(fault(good.with_lease(0, 0)), ObjectCatalogConfigError::ZeroLeaseTtl);
    assert_eq!(
        fault(good.with_lease(1, 2)),
        ObjectCatalogConfigError::LeaseRefreshExceedsTtl {
            lease_ttl_ticks: 1,
            lease_refresh_ticks: 2,
        }
    );
    assert_eq!(fault(good.with_pending_timeout(0)), ObjectCatalogConfigError::ZeroPendingTimeout);
    assert!(ObjectCatalog::with_config(1, good.with_max_retired_bytes(0)).is_err());
}

#[test]
fn soft_pins_last_for_a_while() {
    let mut pool = pool_of(1, 4096);
    let sessions = ClientRegistry::new();
    let config = ObjectCatalogConfig::new(8).with_soft_pin_ttl(100, 1000);
    let mut manager = ObjectManager::with_config(9, &pool, config).unwrap();
    let pinned =
        plan(10, 1).with_pins(ObjectPinRequest::new(SoftPinAction::Enable, Some(50), false));
    manager
        .start_put(&mut pool, &sessions, name("k"), admission(), &pinned, at(0))
        .unwrap();
    manager
        .finish_put_at(&pool, &name("k"), admission().owner(), ReplicaSelector::All, at(10))
        .unwrap();
    let read = manager.get(&pool, lookup("k"), at(10)).unwrap();
    assert_eq!(read.object().soft_pin_expires_at(manager.catalog()), Some(at(60)));
    assert!(read.object().is_soft_pinned(manager.catalog(), at(59)));
    assert!(!read.object().is_soft_pinned(manager.catalog(), at(60)));
    let too_long =
        plan(10, 1).with_pins(ObjectPinRequest::new(SoftPinAction::Enable, Some(1001), false));
    assert_eq!(
        manager
            .start_put(&mut pool, &sessions, name("z"), admission(), &too_long, at(0))
            .unwrap_err(),
        ObjectManagerError::InvalidPlan
    );
}

#[test]
fn batches_go_one_by_one() {
    let mut pool = pool_of(1, 4096);
    let mut manager = ObjectManager::new(9, &pool);
    put(&mut manager, &mut pool, "a", 10, 0);
    let removed =
        manager.remove_batch(&vec![lookup("a"), lookup("a"), lookup("b")], at(0), true);
    assert_eq!(
        removed,
        vec![Ok(()), Err(ObjectRemoveError::NotFound), Err(ObjectRemoveError::NotFound)]
    );
}

#[test]
fn a_write_is_resolved_by_its_name() {
    let mut pool = pool_of(1, 4096);
    let sessions = ClientRegistry::new();
    let mut catalog = ObjectCatalog::new(9);
    assert!(matches!(catalog.resolve_write(lookup("k")), Err(LookupError::NotFound)));
    let pins = ObjectPinRequest::new(SoftPinAction::Preserve, None, true);
    let claim =
        catalog.begin_write(name("k"), admission(), WriteMode::Insert, pins, at(0)).unwrap();
    assert!(matches!(catalog.resolve_write(lookup("k")), Err(LookupError::NotReady)));
    let set = replicas(&mut pool, 96);
    assert_eq!(set.minimum_capacity_bytes(), Some(96));
    assert_eq!(ReplicaSet::new(Vec::new()).minimum_capacity_bytes(), None);
    let transaction =
        claim.stage(&mut catalog, &pool, &sessions, ObjectContent::new(90), set).unwrap();
    match catalog.resolve_write(lookup("k")) {
        Ok(WriteResolution::Active(found)) => assert_eq!(found.id(), transaction.id()),
        _ => panic!("the staged write is found"),
    }
    let handle = catalog.commit(&pool, &transaction, ObjectCommit::new(None), at(1)).unwrap();
    assert!(handle.is_hard_pinned());
    match catalog.resolve_write(lookup("k")) {
        Ok(WriteResolution::Committed(found)) => {
            assert_eq!(found.version_id(), handle.version_id())
        }
        _ => panic!("the committed version is found"),
    }
}

#[test]
fn soft_pins_hold_unless_they_may_be_evicted() {
    for allowed in [false, true] {
        let mut pool = pool_of(1, 4096);
        let config = ObjectCatalogConfig::new(8).with_lease(1, 1).with_soft_pin_eviction(allowed);
        assert_eq!(config.allow_evict_soft_pinned_objects(), allowed);
        let sessions = ClientRegistry::new();
        let mut catalog = ObjectCatalog::with_config(9, config).unwrap();
        let pins = ObjectPinRequest::new(SoftPinAction::Enable, Some(1_000), false);
        let claim =
            catalog.begin_write(name("k"), admission(), WriteMode::Insert, pins, at(0)).unwrap();
        let set = replicas(&mut pool, 64);
        let transaction =
            claim.stage(&mut catalog, &pool, &sessions, ObjectContent::new(64), set).unwrap();
        catalog.commit(&pool, &transaction, ObjectCommit::new(None), at(0)).unwrap();
        catalog.request_reclaim(64);
        let mut retired = 0;
        for _ in 0..4 {
            let budget = CollectBudget::new(8, 8, 8);
            retired += catalog.collect_step(&mut pool, at(100), budget).retired_objects;
        }
        assert_eq!(retired, usize::from(allowed));
    }
}

#[test]
fn retired_bytes_are_not_subtracted_from_the_target() {
    let config = MemoryEvictionConfig::from_ppm(900_000, 800_000).unwrap();
    let mut controller = MemoryEvictionController::new(config);
    let space = ReplicaClassSpaceStats {
        generation: 0,
        capacity_bytes: 1000,
        used_bytes: 950,
        available_bytes: 50,
        largest_free_region_bytes: 50,
    };
    let catalog = ObjectCatalogStats {
        retired_bytes: 100,
        retired_memory_bytes: 100,
        ..ObjectCatalogStats::default()
    };
    assert_eq!(controller.prepare_step(space, catalog), 150);
    assert_eq!(config.high_bytes(1000), 900);
    assert_eq!(config.low_bytes(u64::MAX), 14_757_395_258_967_641_292);
}

#[test]
fn a_forced_removal_keeps_its_storage_until_the_lease_is_over() {
    let mut pool = pool_of(1, 4096);
    let config = ObjectCatalogConfig::new(8).with_lease(100, 100);
    let sessions = ClientRegistry::new();
    let mut catalog = ObjectCatalog::with_config(9, config).unwrap();
    let claim = catalog
        .begin_write(name("k"), admission(), WriteMode::Insert, ObjectPinRequest::default(), at(0))
        .unwrap();
    let set = replicas(&mut pool, 64);
    let transaction =
        claim.stage(&mut catalog, &pool, &sessions, ObjectContent::new(64), set).unwrap();
    let handle = catalog.commit(&pool, &transaction, ObjectCommit::new(None), at(0)).unwrap();
    catalog.release_handle(handle);
    catalog.release_transaction(transaction);
    let read = catalog.get(&pool, lookup("k"), at(10)).unwrap();
    let lease_end = read.lease_expires_at();
    assert_eq!(lease_end, at(110));
    catalog.release_handle(read.object);
    catalog.remove_with_force(lookup("k"), at(20), true).unwrap();
    let budget = CollectBudget::new(8, 8, 8);
    assert_eq!(catalog.collect_step(&mut pool, at(20), budget).reclaimed_objects, 0);
    assert_eq!(catalog.collect_step(&mut pool, at(109), budget).reclaimed_objects, 0);
    assert_eq!(catalog.stats().retired_bytes, 64);
    assert_eq!(catalog.collect_step(&mut pool, at(110), budget).reclaimed_objects, 1);
    assert_eq!(catalog.stats().retired_bytes, 0);
}

#[test]
fn replacing_an_object_moves_the_counters() {
    let mut pool = pool_of(1, 4096);
    let sessions = ClientRegistry::new();
    let mut catalog = ObjectCatalog::new(9);
    let mut write = |catalog: &mut ObjectCatalog, pool: &mut SegmentPool, bytes: u64| {
        let claim = catalog
            .begin_write(
                name("k"),
                admission(),
                WriteMode::Upsert,
                ObjectPinRequest::default(),
                at(0),
            )
            .unwrap();
        let set = replicas(pool, bytes);
        let transaction =
            claim.stage(catalog, pool, &sessions, ObjectContent::new(bytes), set).unwrap();
        catalog.commit(pool, &transaction, ObjectCommit::new(None), at(0)).unwrap()
    };
    let first = write(&mut catalog, &mut pool, 64);
    let before = catalog.stats();
    let second = write(&mut catalog, &mut pool, 100);
    let after = catalog.stats();
    assert!(second.version_id().get() > first.version_id().get());
    assert_eq!((after.slots, after.published_objects), (before.slots, before.published_objects));
    assert_eq!((before.live_bytes, after.live_bytes), (64, 100));
    assert_eq!((before.retired_bytes, after.retired_bytes), (0, 64));
    assert_eq!((after.pending_objects, after.pending_bytes), (0, 0));
}

#[test]
fn lookups_stand_for_identities() {
    let hasher = RandomState::new();
    let identity = name("k");
    assert_eq!(identity.as_lookup(), lookup("k"));
    assert_ne!(identity.as_lookup(), lookup("l"));
    assert_eq!(hasher.hash_one(&identity), hasher.hash_one(identity.as_lookup()));
}

#[test]
fn figures_start_at_zero() {
    let stats = ObjectCatalogStats::default();
    assert_eq!(stats, ObjectCatalog::new(9).stats());
    assert_eq!(stats.retired_memory_bytes, 0);
}

#[test]
fn ratios_of_capacities_are_rounded_down() {
    assert_eq!(scale_bytes(1000, 899_999), 899);
    assert_eq!(scale_bytes(u64::MAX, 1_000_000), u64::MAX);
    assert_eq!(scale_bytes(u64::MAX, 0), 0);
    assert_eq!(scale_bytes(1, 999_999), 0);
}
