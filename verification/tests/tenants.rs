use cakemaster::client::lifecycle::ClientRegistry;
use cakemaster::object::content::ObjectContent;
use cakemaster::object::error::{LookupError, ObjectManagerError, ObjectRemoveError};
use cakemaster::object::manager::{ObjectPutPlan, ReplicaSelector};
use cakemaster::object::reclamation::{CatalogTick, CollectBudget};
use cakemaster::object::tenant::manager::{
    admission_charge, TenantGetError, TenantObjectManager, TenantObjectManagerCreateError,
    TenantPutRequest, TenantRemoveError,
};
use cakemaster::object::tenant::quota::distribute_effective_quota;
use cakemaster::object::tenant::types::{
    TenantAdminError, TenantConfig, TenantConfigError, TenantId, TenantIdError, TenantObjectError,
    TenantPolicy, TenantQuotaLimits, TenantResourceClass,
};
use cakemaster::object::write::WriteAdmission;
use cakemaster::segment::descriptor::MemoryRegion;
use cakemaster::segment::identity::{ClientId, SegmentId, SegmentIdentity};
use cakemaster::segment::placement::{
    AllocationSpec, FulfillmentPolicy, PlacementRequest, ReplicaPolicy,
};
use cakemaster::segment::pool::SegmentPool;
use cakemaster::segment::spec::{ReplicaClass, SegmentSpec};
use cakemaster::segment::transport::{TransportEndpoint, TransportProtocol};
use cakemaster::text::comes_before;

fn client() -> ClientId {
    ClientId::new(1, 1)
}

fn attach(pool: &mut SegmentPool, number: u64, size: u64) {
    pool.attach(SegmentSpec::memory(
        SegmentIdentity::new(SegmentId::new(0, number), client(), format!("s{number}")),
        MemoryRegion::new(number * 0x10_0000_0000, size),
        TransportEndpoint::new(TransportProtocol::Tcp, "10.0.0.1:1".to_owned()),
    ))
    .unwrap();
}

fn pool_of(size: u64) -> SegmentPool {
    let mut pool = SegmentPool::new(1);
    attach(&mut pool, 1, size);
    pool
}

fn id(text: &str) -> TenantId {
    TenantId::new(text.to_owned()).unwrap()
}

fn policy(bytes: u64) -> TenantPolicy {
    TenantPolicy::new(TenantQuotaLimits::new(bytes, 0))
}

fn multi(pool: &SegmentPool, tenants: &[(&str, u64)]) -> TenantObjectManager {
    let listed = tenants.iter().map(|(name, bytes)| (id(name), policy(*bytes))).collect();
    TenantObjectManager::new(5, 6, pool, &TenantConfig::multi(listed)).unwrap_or_else(|_| {
        unreachable!()
    })
}

fn at(value: u64) -> CatalogTick {
    CatalogTick::new(value)
}

fn plan(bytes: u64, replicas: usize) -> ObjectPutPlan {
    ObjectPutPlan::new(
        ObjectContent::new(bytes),
        PlacementRequest::new(AllocationSpec::new(bytes), ReplicaPolicy::new(replicas)),
    )
}

fn admission() -> WriteAdmission {
    WriteAdmission::unmanaged(client())
}

#[test]
fn tenant_ids_are_not_empty() {
    assert_eq!(TenantId::new(String::new()).unwrap_err(), TenantIdError::Empty);
    assert_eq!(id("a").as_str(), "a");
}

#[test]
fn shares_add_up_to_the_capacity() {
    assert_eq!(distribute_effective_quota(&vec![10, 20], 30), vec![10, 20]);
    assert_eq!(distribute_effective_quota(&vec![10, 10, 10], 20), vec![7, 7, 6]);
    assert_eq!(distribute_effective_quota(&vec![1, 0, 2], 2), vec![1, 0, 1]);
    assert_eq!(distribute_effective_quota(&vec![u64::MAX, u64::MAX], u64::MAX).iter().sum::<u64>(), u64::MAX);
    assert_eq!(distribute_effective_quota(&vec![5, 7], 0), vec![0, 0]);
    assert_eq!(distribute_effective_quota(&Vec::new(), 9), Vec::<u64>::new());
}

#[test]
fn plans_are_charged_by_what_is_owed() {
    assert_eq!(admission_charge(&plan(10, 3)), Ok((TenantResourceClass::Memory, 30)));
    let any = ObjectPutPlan::new(
        ObjectContent::new(10),
        PlacementRequest::new(AllocationSpec::new(10), ReplicaPolicy::new(3))
            .with_fulfillment(FulfillmentPolicy::BestEffort),
    );
    assert_eq!(admission_charge(&any), Ok((TenantResourceClass::Memory, 10)));
    assert_eq!(
        admission_charge(&plan(u64::MAX, 2)),
        Err(ObjectManagerError::InvalidPlan)
    );
}

#[test]
fn one_tenant_is_not_accounted_for() {
    let mut pool = pool_of(1000);
    let sessions = ClientRegistry::new();
    let mut manager = TenantObjectManager::new(5, 6, &pool, &TenantConfig::default())
        .unwrap_or_else(|_| unreachable!());
    let anyone = manager.resolve_tenant(&id("whoever")).unwrap();
    assert_eq!(anyone.namespace().get(), 0);
    assert_eq!(
        manager.upsert_tenant(&pool, id("a"), policy(1)).unwrap_err(),
        TenantAdminError::SingleTenantMode
    );
    assert_eq!(
        manager.delete_tenant(&pool, &id("a")).unwrap_err(),
        TenantAdminError::SingleTenantMode
    );
    manager
        .start_put(&mut pool, &sessions, &anyone, "k".to_owned(), admission(), &plan(10, 1), at(0))
        .unwrap();
    assert!(manager.list_tenants().is_empty());
    assert_eq!(manager.remove_all_tenants(at(0), true), 0);
}

#[test]
fn tenants_are_listed_once_and_in_order() {
    let pool = pool_of(1000);
    let twice = TenantConfig::multi(vec![(id("a"), policy(1)), (id("a"), policy(2))]);
    match TenantObjectManager::new(5, 6, &pool, &twice) {
        Err(TenantObjectManagerCreateError::Tenant(TenantConfigError::DuplicateTenant(name))) => {
            assert_eq!(name.as_str(), "a")
        }
        _ => panic!("the tenant is listed twice"),
    }
    let mut manager = multi(&pool, &[("b", 300), ("a", 300)]);
    manager.upsert_tenant(&pool, id("aa"), policy(300)).unwrap();
    let listed = manager.list_tenants();
    let names: Vec<&str> = listed.iter().map(|tenant| tenant.id.as_str()).collect();
    assert_eq!(names, vec!["a", "aa", "b"]);
    let spaces: Vec<u64> = listed.iter().map(|tenant| tenant.namespace.get()).collect();
    assert_eq!(spaces, vec![2, 3, 1]);
    assert_eq!(listed[0].memory.effective_bytes, 300);
    assert_eq!(listed[0].policy.quota().memory_bytes(), 300);
    assert!(comes_before("a", "aa") && comes_before("aa", "b") && !comes_before("b", "b"));
    assert!(comes_before("Z", "a") && comes_before("z", "\u{e9}"));
}

#[test]
fn quotas_bound_what_is_stored() {
    let mut pool = pool_of(1000);
    let sessions = ClientRegistry::new();
    let mut manager = multi(&pool, &[("a", 100), ("b", 100)]);
    let a = manager.resolve_tenant(&id("a")).unwrap();
    manager
        .start_put(&mut pool, &sessions, &a, "k".to_owned(), admission(), &plan(80, 1), at(0))
        .unwrap();
    assert_eq!(
        manager
            .start_put(&mut pool, &sessions, &a, "l".to_owned(), admission(), &plan(21, 1), at(0))
            .unwrap_err(),
        TenantObjectError::TenantQuotaExceeded {
            class: TenantResourceClass::Memory,
            requested_bytes: 21,
            demand_bytes: 80,
            effective_bytes: 100,
        }
    );
    let shown = manager.tenant_snapshot(&id("a")).unwrap();
    assert_eq!((shown.memory.reserved_bytes, shown.memory.used_bytes), (80, 0));
    manager
        .finish_put(&pool, &a, "k", admission().owner(), ReplicaSelector::All)
        .unwrap();
    let shown = manager.tenant_snapshot(&id("a")).unwrap();
    assert_eq!((shown.memory.reserved_bytes, shown.memory.used_bytes), (0, 80));
    manager.remove(&a, "k", at(0), true).unwrap();
    assert_eq!(manager.tenant_snapshot(&id("a")).unwrap().memory.retiring_bytes, 80);
    assert_eq!(
        manager.delete_tenant(&pool, &id("a")).unwrap_err(),
        TenantAdminError::TenantNotEmpty
    );
    manager.maintenance(&mut pool, at(60_000), CollectBudget::default());
    let shown = manager.tenant_snapshot(&id("a")).unwrap();
    assert_eq!((shown.memory.demand_bytes, shown.memory.retiring_bytes), (0, 0));
    assert_eq!(manager.tenant_snapshot(&id("b")).unwrap().memory.demand_bytes, 0);
}

#[test]
fn revoked_and_failed_writes_are_not_charged() {
    let mut pool = pool_of(100);
    let sessions = ClientRegistry::new();
    let mut manager = multi(&pool, &[("a", 1000)]);
    let a = manager.resolve_tenant(&id("a")).unwrap();
    assert_eq!(manager.tenant_snapshot(&id("a")).unwrap().memory.effective_bytes, 100);
    manager
        .start_put(&mut pool, &sessions, &a, "k".to_owned(), admission(), &plan(60, 1), at(0))
        .unwrap();
    manager
        .revoke_put(&pool, &a, "k", admission().owner(), ReplicaSelector::All, at(0))
        .unwrap();
    assert_eq!(manager.tenant_snapshot(&id("a")).unwrap().memory.demand_bytes, 0);
    assert_eq!(
        manager
            .start_put(&mut pool, &sessions, &a, "l".to_owned(), admission(), &plan(30, 3), at(0))
            .unwrap_err(),
        TenantObjectError::Object(ObjectManagerError::NoAvailableReplicas)
    );
    assert_eq!(manager.tenant_snapshot(&id("a")).unwrap().memory.demand_bytes, 0);
    let bad = ObjectPutPlan::new(
        ObjectContent::new(10),
        PlacementRequest::new(AllocationSpec::new(11), ReplicaPolicy::new(1)),
    );
    assert_eq!(
        manager
            .start_put(&mut pool, &sessions, &a, "m".to_owned(), admission(), &bad, at(0))
            .unwrap_err(),
        TenantObjectError::Object(ObjectManagerError::InvalidPlan)
    );
    assert_eq!(manager.tenant_snapshot(&id("a")).unwrap().memory.demand_bytes, 0);
}

#[test]
fn any_number_of_replicas_is_charged_as_placed() {
    let mut pool = pool_of(1000);
    attach(&mut pool, 2, 1000);
    let sessions = ClientRegistry::new();
    let mut manager = multi(&pool, &[("a", 25)]);
    let a = manager.resolve_tenant(&id("a")).unwrap();
    let any = |bytes: u64| {
        ObjectPutPlan::new(
            ObjectContent::new(bytes),
            PlacementRequest::new(AllocationSpec::new(bytes), ReplicaPolicy::new(2))
                .with_fulfillment(FulfillmentPolicy::BestEffort),
        )
    };
    manager
        .start_put(&mut pool, &sessions, &a, "k".to_owned(), admission(), &any(10), at(0))
        .unwrap();
    assert_eq!(manager.tenant_snapshot(&id("a")).unwrap().memory.demand_bytes, 20);
    assert_eq!(
        manager
            .start_put(&mut pool, &sessions, &a, "l".to_owned(), admission(), &any(4), at(0))
            .unwrap_err(),
        TenantObjectError::TenantQuotaExceeded {
            class: TenantResourceClass::Memory,
            requested_bytes: 4,
            demand_bytes: 24,
            effective_bytes: 25,
        }
    );
    assert_eq!(manager.tenant_snapshot(&id("a")).unwrap().memory.demand_bytes, 20);
    assert_eq!(manager.catalog().stats().claims, 0);
}

#[test]
fn tenants_do_not_see_each_other() {
    let mut pool = pool_of(1000);
    let sessions = ClientRegistry::new();
    let mut manager = multi(&pool, &[("a", 100), ("b", 100)]);
    let a = manager.resolve_tenant(&id("a")).unwrap();
    let b = manager.resolve_tenant(&id("b")).unwrap();
    for tenant in [&a, &b] {
        manager
            .start_put(
                &mut pool,
                &sessions,
                tenant,
                "k".to_owned(),
                admission(),
                &plan(10, 1),
                at(0),
            )
            .unwrap();
    }
    manager.finish_put(&pool, &a, "k", admission().owner(), ReplicaSelector::All).unwrap();
    let read = manager.get(&pool, &a, "k", at(0)).unwrap();
    manager.release_read(read);
    assert_eq!(
        manager.get(&pool, &b, "k", at(0)).unwrap_err(),
        TenantGetError::Lookup(LookupError::NotReady)
    );
    assert_eq!(manager.remove_matching(&b, None, at(0), true), Ok(0));
    assert_eq!(manager.object_exists(&pool, &a, "k", at(0)), Ok(true));
    assert_eq!(manager.remove_all_tenants(at(0), true), 1);
    assert_eq!(
        manager.remove(&a, "k", at(0), true).unwrap_err(),
        TenantRemoveError::Remove(ObjectRemoveError::NotFound)
    );
}

#[test]
fn handles_end_with_their_generation() {
    let mut pool = pool_of(1000);
    let mut manager = multi(&pool, &[("a", 100), ("b", 100)]);
    let old = manager.resolve_tenant(&id("a")).unwrap();
    let other = manager.resolve_tenant(&id("b")).unwrap();
    manager.delete_tenant(&pool, &id("a")).unwrap();
    assert_eq!(
        manager.resolve_tenant(&id("a")).unwrap_err(),
        TenantObjectError::TenantNotRegistered
    );
    assert_eq!(
        manager.delete_tenant(&pool, &id("a")).unwrap_err(),
        TenantAdminError::TenantNotRegistered
    );
    assert_eq!(
        manager.object_exists(&pool, &old, "k", at(0)),
        Err(TenantObjectError::InvalidTenantHandle)
    );
    let new = manager.upsert_tenant(&pool, id("a"), policy(50)).unwrap();
    assert_eq!(new.namespace(), old.namespace());
    assert_ne!(new, old);
    let sessions = ClientRegistry::new();
    assert_eq!(
        manager
            .start_put(&mut pool, &sessions, &old, "k".to_owned(), admission(), &plan(1, 1), at(0))
            .unwrap_err(),
        TenantObjectError::InvalidTenantHandle
    );
    assert_eq!(manager.object_exists(&pool, &new, "k", at(0)), Ok(false));
    assert_eq!(manager.object_exists(&pool, &other, "k", at(0)), Ok(false));
    assert_eq!(manager.tenant_snapshot(&id("a")).unwrap().generation, 2);
    let mut elsewhere = multi(&pool, &[("a", 100)]);
    let foreign = cakemaster::object::tenant::registry::ResolvedTenant { manager_id: 77, ..new };
    assert_eq!(
        elsewhere.get(&pool, &foreign, "k", at(0)).unwrap_err(),
        TenantGetError::Tenant(TenantObjectError::InvalidTenantHandle)
    );
}

#[test]
fn promises_follow_the_capacity() {
    let mut pool = pool_of(100);
    let mut manager = multi(&pool, &[("a", 100), ("b", 100)]);
    let promise = |manager: &TenantObjectManager, name: &str| {
        manager.tenant_snapshot(&id(name)).unwrap().memory.effective_bytes
    };
    assert_eq!((promise(&manager, "a"), promise(&manager, "b")), (50, 50));
    attach(&mut pool, 2, 100);
    manager.maintenance(&mut pool, at(0), CollectBudget::default());
    assert_eq!((promise(&manager, "a"), promise(&manager, "b")), (100, 100));
    manager.upsert_tenant(&pool, id("a"), policy(300)).unwrap();
    assert_eq!((promise(&manager, "a"), promise(&manager, "b")), (150, 50));
    manager.delete_tenant(&pool, &id("b")).unwrap();
    assert_eq!(promise(&manager, "a"), 200);
}

#[test]
fn tenants_over_their_promise_are_reclaimed_from() {
    let mut pool = pool_of(1000);
    let sessions = ClientRegistry::new();
    let mut manager = multi(&pool, &[("a", 500), ("b", 100)]);
    let a = manager.resolve_tenant(&id("a")).unwrap();
    for number in 0..5 {
        let key = format!("k{number}");
        manager
            .start_put(&mut pool, &sessions, &a, key.clone(), admission(), &plan(100, 1), at(0))
            .unwrap();
        manager.finish_put(&pool, &a, &key, admission().owner(), ReplicaSelector::All).unwrap();
    }
    manager.upsert_tenant(&pool, id("a"), policy(250)).unwrap();
    let done = manager.maintenance(&mut pool, at(1), CollectBudget::default());
    assert_eq!(done.catalog.scoped_retired_objects, 3);
    for _ in 0..3 {
        manager.maintenance(&mut pool, at(1), CollectBudget::default());
    }
    assert_eq!(manager.tenant_snapshot(&id("a")).unwrap().memory.demand_bytes, 200);
}

#[test]
fn batches_are_admitted_as_a_whole() {
    let mut pool = pool_of(1000);
    let sessions = ClientRegistry::new();
    let mut manager = multi(&pool, &[("a", 100)]);
    let a = manager.resolve_tenant(&id("a")).unwrap();
    let request = |key: &str, bytes: u64| TenantPutRequest::new(key.to_owned(), plan(bytes, 1));
    let refused = manager.start_put_batch(
        &mut pool,
        &sessions,
        &a,
        admission(),
        &vec![request("k", 60), request("l", 60), request("m", u64::MAX)],
        at(0),
    );
    assert_eq!(refused.len(), 3);
    assert!(refused.iter().all(|one| one.is_err()));
    let fits = manager.start_put_batch(
        &mut pool,
        &sessions,
        &a,
        admission(),
        &vec![request("k", 60), request("l", 40), TenantPutRequest::new(
            "m".to_owned(),
            plan(1 << 63, 2),
        )],
        at(0),
    );
    assert!(fits[0].is_ok() && fits[1].is_ok());
    assert_eq!(
        fits[2].as_ref().unwrap_err(),
        &TenantObjectError::Object(ObjectManagerError::InvalidPlan)
    );
    assert_eq!(manager.tenant_snapshot(&id("a")).unwrap().memory.demand_bytes, 100);
    let keys = vec!["k", "l", "n"];
    let finished = manager
        .finish_put_batch(&pool, &a, &keys, admission().owner(), ReplicaSelector::All)
        .unwrap();
    assert_eq!(finished, vec![Ok(()), Ok(()), Err(ObjectManagerError::NotFound)]);
    assert_eq!(
        manager.exists_batch(&pool, &a, &keys, at(0)).unwrap(),
        vec![true, true, false]
    );
    let found = manager.get_batch(&pool, &a, &keys, at(0)).unwrap();
    assert!(found[0].is_ok() && found[1].is_ok());
    assert_eq!(found[2].as_ref().unwrap_err(), &LookupError::NotFound);
    for read in found.into_iter().flatten() {
        manager.release_read(read);
    }
    assert_eq!(
        manager.remove_batch(&a, &keys, at(0), true).unwrap(),
        vec![Ok(()), Ok(()), Err(ObjectRemoveError::NotFound)]
    );
    let one = manager.start_upsert_batch(
        &mut pool,
        &sessions,
        &a,
        admission(),
        &vec![request("z", 101)],
        at(0),
    );
    assert!(matches!(one[0], Err(TenantObjectError::TenantQuotaExceeded { .. })));
    assert_eq!(
        manager
            .revoke_put_batch(&pool, &a, &keys, admission().owner(), ReplicaSelector::All, at(0))
            .unwrap()
            .len(),
        3
    );
}

#[test]
fn reclaim_can_be_asked_for() {
    let pool = pool_of(1000);
    let mut manager = multi(&pool, &[("a", 100)]);
    manager.catalog_mut().request_reclaim(70);
    manager.catalog_mut().request_reclaim(30);
    assert_eq!(manager.catalog().stats().reclaim_debt, 70);
    assert_eq!(manager.objects_mut().catalog().catalog_id(), 6);
    assert_eq!(manager.pending_write_revoker().catalog_id, 6);
}

#[test]
fn resource_classes_and_limits_go_together() {
    assert_eq!(
        TenantResourceClass::from_replica_class(ReplicaClass::Memory),
        Some(TenantResourceClass::Memory)
    );
    assert_eq!(
        TenantResourceClass::from_replica_class(ReplicaClass::Nof),
        Some(TenantResourceClass::Nof)
    );
    assert_eq!(TenantResourceClass::from_replica_class(ReplicaClass::LocalSsd), None);
    let limits = TenantQuotaLimits::new(3, 5);
    assert_eq!(limits.for_class(TenantResourceClass::Memory), 3);
    assert_eq!(limits.for_class(TenantResourceClass::Nof), 5);
    let request = TenantPutRequest::new(
        "k".to_owned(),
        ObjectPutPlan::new(
            ObjectContent::new(8),
            PlacementRequest::new(AllocationSpec::new(8), ReplicaPolicy::new(1)),
        ),
    );
    let (key, plan) = request.into_parts();
    assert_eq!(key, "k");
    assert_eq!(plan.content().logical_bytes(), 8);
}
