use cakemaster::segment::config::{SegmentPoolConfig, DEFAULT_MAX_ALLOCATOR_NODES_PER_SEGMENT};
use cakemaster::segment::descriptor::MemoryRegion;
use cakemaster::segment::error::{
    AttachError, LocalSsdError, ReserveError, SegmentStateError,
};
use cakemaster::segment::identity::{ClientId, SegmentId, SegmentIdentity};
use cakemaster::segment::lifetime::SegmentLifetime;
use cakemaster::segment::local_ssd::{LocalSsdCapacity, LocalSsdMount};
use cakemaster::segment::placement::{
    AllocationSpec, FailureDomain, FulfillmentPolicy, PlacementConstraints, PlacementError,
    PlacementRequest, ReplicaAllocator, ReplicaPolicy,
};
use cakemaster::segment::pool::SegmentPool;
use cakemaster::segment::resource::{
    validate_resource_conflicts, CandidateCapability, CxlArenaId, CxlArenaSpec, MountedResource,
    ResourceConflict, ResourceRegistry, ResourceSpec, SegmentConfiguration,
};
use cakemaster::segment::shards::ShardedByteAllocator;
use cakemaster::segment::spec::{ReplicaClass, SegmentSpec};
use cakemaster::segment::stats::SegmentState;
use cakemaster::segment::transport::{TransportEndpoint, TransportProtocol};

fn tcp(endpoint: &str) -> TransportEndpoint {
    TransportEndpoint::new(TransportProtocol::Tcp, endpoint.to_owned())
}

fn owner() -> ClientId {
    ClientId::new(7, 7)
}

fn identity(number: u64, host: &str) -> SegmentIdentity {
    SegmentIdentity::new(SegmentId::new(0, number), owner(), format!("segment-{number}"))
        .with_host_id(host.to_owned())
}

fn spec(number: u64, host: &str, size: u64) -> SegmentSpec {
    SegmentSpec::memory(
        identity(number, host),
        MemoryRegion::new(number * 0x1_0000_0000, size),
        tcp("10.0.0.1:1"),
    )
}

fn pool_of(specs: Vec<SegmentSpec>) -> SegmentPool {
    let mut pool = SegmentPool::new(3);
    for spec in specs {
        pool.attach(spec).unwrap();
    }
    pool
}

fn request(bytes: u64, replicas: usize) -> PlacementRequest {
    PlacementRequest::new(AllocationSpec::new(bytes), ReplicaPolicy::new(replicas))
}

#[test]
fn protocols_have_names() {
    for name in ["tcp", "rdma", "cxl", "my-transport_2"] {
        assert_eq!(TransportProtocol::parse(name).unwrap().as_str(), name);
    }
    for name in ["", "TCP", "a b", "\u{e9}"] {
        assert!(TransportProtocol::parse(name).is_err());
    }
}

#[test]
fn attaching_checks_the_registration() {
    let mut pool = SegmentPool::new(3);
    let region = MemoryRegion::new(4096, 4096);
    let at = |identity: SegmentIdentity, region: MemoryRegion, endpoint: &str| {
        SegmentSpec::memory(identity, region, tcp(endpoint))
    };
    let nil = SegmentIdentity::new(SegmentId::nil(), owner(), "x".to_owned());
    assert_eq!(pool.attach(at(nil, region, "e")).unwrap_err(), AttachError::NilSegmentId);
    let orphan = SegmentIdentity::new(SegmentId::new(0, 1), ClientId::nil(), "x".to_owned());
    assert_eq!(pool.attach(at(orphan, region, "e")).unwrap_err(), AttachError::NilOwnerId);
    let nameless = SegmentIdentity::new(SegmentId::new(0, 1), owner(), String::new());
    assert_eq!(pool.attach(at(nameless, region, "e")).unwrap_err(), AttachError::EmptyName);
    assert_eq!(
        pool.attach(at(identity(1, ""), MemoryRegion::new(0, 1), "e")).unwrap_err(),
        AttachError::ZeroBaseAddress
    );
    assert_eq!(
        pool.attach(at(identity(1, ""), MemoryRegion::new(1, 0), "e")).unwrap_err(),
        AttachError::ZeroSize
    );
    assert_eq!(
        pool.attach(at(identity(1, ""), region, "")).unwrap_err(),
        AttachError::EmptyTransportEndpoint
    );
    assert_eq!(
        pool.attach(at(identity(1, ""), MemoryRegion::new(u64::MAX, 2), "e")).unwrap_err(),
        AttachError::AddressOverflow
    );
    assert!(pool.attach(spec(1, "", 4096)).unwrap().is_new());
    assert!(!pool.attach(spec(1, "", 4096)).unwrap().is_new());
    assert_eq!(
        pool.attach(spec(1, "", 8192)).unwrap_err(),
        AttachError::ConflictingSegmentId(SegmentId::new(0, 1))
    );
    assert_eq!(pool.len(), 1);
}

#[test]
fn configurations_are_checked() {
    assert!(SegmentPool::with_config(1, SegmentPoolConfig::new(2)).is_err());
    assert!(SegmentPool::with_config(1, SegmentPoolConfig::new(3)).is_ok());
    let sharded = SegmentPoolConfig::new(8).with_allocator_shards(3);
    assert_eq!(SegmentPool::with_config(1, sharded).err().unwrap().allocator_shards(), 3);
    assert_eq!(
        SegmentPoolConfig::default().max_allocator_nodes_per_segment(),
        DEFAULT_MAX_ALLOCATOR_NODES_PER_SEGMENT
    );
}

#[test]
fn reservations_come_and_go() {
    let mut pool = pool_of(vec![spec(1, "", 4096)]);
    let handle = pool.segment(SegmentId::new(0, 1)).unwrap();
    assert_eq!(pool.reserve(&handle, 0).unwrap_err(), ReserveError::ZeroSize);
    let first = pool.reserve(&handle, 1000).unwrap();
    assert_eq!(first.region(), MemoryRegion::new(0x1_0000_0000, 1000));
    let second = pool.reserve(&handle, 96).unwrap();
    assert_eq!(second.offset(), 1000);
    assert_eq!(
        pool.reserve(&handle, 4096).unwrap_err(),
        ReserveError::OutOfSpace(SegmentId::new(0, 1))
    );
    let stats = pool.stats(SegmentId::new(0, 1)).unwrap();
    assert_eq!(stats.space.used_bytes, 1096);
    assert_eq!(stats.usage.active_allocations, 2);
    pool.release(first);
    pool.release_batch(vec![second]);
    let stats = pool.stats(SegmentId::new(0, 1)).unwrap();
    assert_eq!(stats.space.used_bytes, 0);
    assert_eq!(stats.usage.active_allocations, 0);
    let mut other = SegmentPool::new(4);
    assert_eq!(other.reserve(&handle, 1).unwrap_err(), ReserveError::ForeignCandidate);
    assert_eq!(
        other.reserve_on(SegmentId::new(0, 1), 1).unwrap_err(),
        ReserveError::NotFound(SegmentId::new(0, 1))
    );
}

#[test]
fn segments_go_through_their_states() {
    let mut pool = pool_of(vec![spec(1, "", 4096)]);
    let id = SegmentId::new(0, 1);
    let reservation = pool.reserve_on(id, 64).unwrap();
    assert_eq!(pool.remove(owner(), id), Err(SegmentStateError::StillAccepting(id)));
    assert_eq!(
        pool.quiesce(ClientId::new(1, 1), id),
        Err(SegmentStateError::OwnerMismatch {
            segment: id,
            expected: owner(),
            actual: ClientId::new(1, 1),
        })
    );
    pool.quiesce(owner(), id).unwrap();
    assert_eq!(pool.snapshot().len(), 0);
    assert_eq!(pool.reserve_on(id, 1).unwrap_err(), ReserveError::NotAccepting(id));
    assert!(reservation.is_live(&pool));
    pool.reactivate(owner(), id).unwrap();
    assert_eq!(pool.stats(id).unwrap().state, SegmentState::Accepting);
    pool.quiesce(owner(), id).unwrap();
    pool.remove(owner(), id).unwrap();
    assert!(!reservation.is_live(&pool));
    assert_eq!(pool.quiesce(owner(), id), Err(SegmentStateError::NotFound(id)));
    pool.attach(spec(1, "", 4096)).unwrap();
    assert!(!reservation.is_live(&pool));
    pool.release(reservation);
    assert_eq!(pool.stats(id).unwrap().space.used_bytes, 0);
}

#[test]
fn owners_are_invalidated_together() {
    let mut pool = pool_of(vec![spec(1, "", 4096), spec(2, "", 4096)]);
    let epoch = pool.invalidation_epoch();
    assert_eq!(pool.invalidate_owner(ClientId::new(1, 1)), 0);
    assert_eq!(pool.invalidation_epoch(), epoch);
    assert_eq!(pool.invalidate_owners(&[owner(), owner()]), 2);
    assert!(pool.is_empty());
    assert_ne!(pool.invalidation_epoch(), epoch);
}

#[test]
fn replicas_lie_in_different_failure_domains() {
    let mut pool = pool_of(vec![
        spec(1, "a", 4096),
        spec(2, "a", 4096),
        spec(3, "b", 4096),
        spec(4, "", 4096),
    ]);
    let allocator = ReplicaAllocator::new();
    let per_host = PlacementRequest::new(
        AllocationSpec::new(64),
        ReplicaPolicy::new(3).across(FailureDomain::Host),
    );
    let set = allocator.reserve(&mut pool, &per_host).unwrap();
    let hosts: Vec<u64> = set.iter().iter().map(|one| one.segment_id().low()).collect();
    assert_eq!(hosts.len(), 3);
    assert!(!(hosts.contains(&1) && hosts.contains(&2)));
    pool.release_batch(set.into_vec());
    let four = PlacementRequest::new(
        AllocationSpec::new(64),
        ReplicaPolicy::new(4).across(FailureDomain::Host),
    );
    assert_eq!(
        allocator.reserve(&mut pool, &four).unwrap_err(),
        PlacementError::InsufficientReplicas { requested: 4, allocated: 3 }
    );
    for number in 1..=4 {
        assert_eq!(pool.stats(SegmentId::new(0, number)).unwrap().space.used_bytes, 0);
    }
    let some = four.with_fulfillment(FulfillmentPolicy::BestEffort);
    assert_eq!(allocator.reserve(&mut pool, &some).unwrap().len(), 3);
}

#[test]
fn placement_prefers_names_and_then_free_space() {
    let mut pool = pool_of(vec![spec(1, "", 4096), spec(2, "", 4096), spec(3, "", 4096)]);
    let allocator = ReplicaAllocator::new();
    let _held = pool.reserve_on(SegmentId::new(0, 1), 2048).unwrap();
    let first = allocator.reserve(&mut pool, &request(64, 1)).unwrap();
    assert_eq!(first.iter()[0].segment_id(), SegmentId::new(0, 2));
    let named = request(64, 1).constrained_by(
        PlacementConstraints::default().with_preferred_names(vec!["segment-1".to_owned()]),
    );
    let second = allocator.reserve(&mut pool, &named).unwrap();
    assert_eq!(second.iter()[0].segment_id(), SegmentId::new(0, 1));
    let elsewhere = request(64, 3).constrained_by(
        PlacementConstraints::default().excluding(vec![SegmentId::new(0, 3)]),
    );
    assert_eq!(
        allocator.reserve(&mut pool, &elsewhere).unwrap_err(),
        PlacementError::InsufficientReplicas { requested: 3, allocated: 2 }
    );
    assert_eq!(
        allocator.reserve(&mut pool, &request(0, 1)).unwrap_err(),
        PlacementError::ZeroSize
    );
    assert_eq!(
        allocator.reserve(&mut pool, &request(1, 0)).unwrap_err(),
        PlacementError::ZeroReplicas
    );
}

#[test]
fn space_counts_quiesced_segments_and_capacity_does_not() {
    let mut pool = pool_of(vec![spec(1, "", 4096), spec(2, "", 8192)]);
    assert_eq!(pool.capacity_for(ReplicaClass::Memory).capacity_bytes(), 12288);
    pool.quiesce(owner(), SegmentId::new(0, 2)).unwrap();
    assert_eq!(pool.capacity_for(ReplicaClass::Memory).capacity_bytes(), 4096);
    let space = pool.space_for(ReplicaClass::Memory);
    assert_eq!(space.capacity_bytes, 12288);
    assert_eq!(space.largest_free_region_bytes, 8192);
    assert_eq!(pool.space_for(ReplicaClass::LocalSsd).capacity_bytes, 0);
}

#[test]
fn offloads_are_admitted_within_the_reported_capacity() {
    let mut resource = MountedResource::LocalSsd(LocalSsdMount {
        capacity: LocalSsdCapacity::new(false),
        lifetime: SegmentLifetime::new(1),
    });
    let id = SegmentId::new(0, 5);
    assert_eq!(
        resource.admit_offload(id, owner(), 1).unwrap_err(),
        LocalSsdError::OffloadDisabled(id)
    );
    assert_eq!(resource.candidate_capability(ReplicaClass::LocalSsd), None);
    resource.set_offload_enabled(id, true).unwrap();
    assert_eq!(
        resource.candidate_capability(ReplicaClass::LocalSsd),
        Some(CandidateCapability::Offload)
    );
    assert_eq!(
        resource.admit_offload(id, owner(), 1).unwrap_err(),
        LocalSsdError::CapacityNotReported(id)
    );
    resource.report_capacity(id, 100).unwrap();
    let first = resource.admit_offload(id, owner(), 60).unwrap();
    assert_eq!(
        resource.admit_offload(id, owner(), 41).unwrap_err(),
        LocalSsdError::OutOfSpace(id)
    );
    let second = resource.admit_offload(id, owner(), 40).unwrap();
    assert_eq!(resource.local_ssd_stats().unwrap().pending_bytes, 100);
    assert_eq!(resource.space_stats().available_bytes, 0);
    let MountedResource::LocalSsd(mut mount) = resource else { unreachable!() };
    let lease = first.commit(&mut mount, "10.0.0.2:9".to_owned()).unwrap();
    assert_eq!(mount.capacity.stats().committed_bytes, 60);
    assert_eq!(lease.bytes(), 60);
    assert_eq!(lease.segment_id(), id);
    assert_eq!(lease.owned_descriptor().transport_endpoint, "10.0.0.2:9");
    assert_eq!(lease.descriptor().owner, owner());
    assert!(lease.is_live(&mount));
    assert_eq!(
        second.commit(&mut mount, String::new()).unwrap_err(),
        LocalSsdError::EmptyTransportEndpoint
    );
    assert_eq!(mount.capacity.stats().pending_bytes, 0);
    assert_eq!(mount.lifetime.active_leases(), 1);
    mount.lifetime.invalidate();
    assert!(!lease.is_live(&mount));
    lease.release(&mut mount);
    assert_eq!(mount.capacity.stats().admitted_bytes, 0);
    assert_eq!(mount.lifetime.active_leases(), 0);
}

#[test]
fn permits_of_an_invalid_segment_are_given_back() {
    let mut resource = MountedResource::LocalSsd(LocalSsdMount {
        capacity: LocalSsdCapacity::new(true),
        lifetime: SegmentLifetime::new(1),
    });
    let id = SegmentId::new(0, 5);
    resource.report_capacity(id, 10).unwrap();
    let permit = resource.admit_offload(id, owner(), 10).unwrap();
    assert_eq!(permit.bytes(), 10);
    let MountedResource::LocalSsd(mut mount) = resource else { unreachable!() };
    mount.lifetime.invalidate();
    assert!(!permit.is_live(&mount));
    assert_eq!(
        permit.commit(&mut mount, "e".to_owned()).unwrap_err(),
        LocalSsdError::NotAccepting(id)
    );
    assert_eq!(mount.capacity.stats().admitted_bytes, 0);
}

#[test]
fn ranges_are_reserved_directly() {
    let id = SegmentId::new(0, 6);
    let mut range = MountedResource::Range(ShardedByteAllocator::new(4096, 1, None, 64));
    assert!(range.supports_direct_reservation());
    assert!(!range.supports_offload());
    assert!(range.may_satisfy(0, 4096));
    let (handle, region) = range.reserve(id, 0x1000, 0, 4096).unwrap();
    assert_eq!(region, MemoryRegion::new(0x1000, 4096));
    assert_eq!(range.reserve(id, 0x1000, 0, 1).unwrap_err(), ReserveError::OutOfSpace(id));
    assert_eq!(range.space_stats_for_shard(0).used_bytes, 4096);
    assert_eq!(handle.offset(), 0);
    assert_eq!(range.report_capacity(id, 1), Err(LocalSsdError::NotLocalSsd(id)));
    assert!(range.local_ssd_stats().is_none());
    let mut shifted = MountedResource::Range(ShardedByteAllocator::new(4096, 2, Some(1), 64));
    assert_eq!(
        shifted.reserve(id, u64::MAX, 1, 8).unwrap_err(),
        ReserveError::AddressOverflow(id)
    );
    assert_eq!(shifted.space_stats().used_bytes, 0);
    let mut disk = MountedResource::LocalSsd(LocalSsdMount {
        capacity: LocalSsdCapacity::new(true),
        lifetime: SegmentLifetime::new(1),
    });
    assert_eq!(disk.reserve(id, 0, 0, 1).unwrap_err(), ReserveError::NotDirectlyAllocatable(id));
}

#[test]
fn resources_do_not_get_in_each_others_way() {
    let memory = |number: u64, base: u64, size: u64| ResourceSpec {
        identity: identity(number, ""),
        configuration: SegmentConfiguration::Memory {
            region: MemoryRegion::new(base, size),
            transport: tcp("e"),
        },
    };
    let nof = |number: u64, endpoint: &str| ResourceSpec {
        identity: identity(number, ""),
        configuration: SegmentConfiguration::Nof {
            region: MemoryRegion::new(0, 10),
            transport: tcp(endpoint),
        },
    };
    let disk = |number: u64| ResourceSpec {
        identity: identity(number, ""),
        configuration: SegmentConfiguration::LocalSsd { initial_offload_enabled: true },
    };
    let existing = vec![memory(1, 100, 100), nof(2, "n"), disk(3)];
    assert_eq!(validate_resource_conflicts(&memory(4, 200, 10), &existing), Ok(()));
    assert_eq!(
        validate_resource_conflicts(&memory(4, 199, 10), &existing),
        Err(ResourceConflict::OverlappingAddressRange { existing: SegmentId::new(0, 1) })
    );
    assert_eq!(
        validate_resource_conflicts(&memory(4, u64::MAX, 10), &existing),
        Err(ResourceConflict::AddressOverflow)
    );
    assert_eq!(
        validate_resource_conflicts(&nof(4, "n"), &existing),
        Err(ResourceConflict::DuplicateNofEndpoint { existing: SegmentId::new(0, 2) })
    );
    assert_eq!(validate_resource_conflicts(&nof(4, "m"), &existing), Ok(()));
    assert_eq!(
        validate_resource_conflicts(&disk(4), &existing),
        Err(ResourceConflict::DuplicateLocalSsdOwner { existing: SegmentId::new(0, 3) })
    );
}

#[test]
fn arenas_are_shared_until_the_last_segment_goes() {
    let arena = |capacity_bytes: u64| CxlArenaSpec {
        id: CxlArenaId { text: "arena".to_owned() },
        capacity_bytes,
    };
    let mut registry = ResourceRegistry::new();
    registry.mount_cxl(&arena(10)).unwrap();
    registry.mount_cxl(&arena(10)).unwrap();
    assert_eq!(
        registry.mount_cxl(&arena(11)),
        Err(ResourceConflict::ConflictingCxlArena { arena: arena(11).id })
    );
    registry.unmount_cxl(&arena(10).id);
    assert!(registry.mount_cxl(&arena(11)).is_err());
    registry.unmount_cxl(&arena(10).id);
    assert_eq!(registry.mount_cxl(&arena(11)), Ok(()));
}

#[test]
fn one_shard_of_a_pool_is_named() {
    let config = SegmentPoolConfig::new(12).for_allocator_shard(2, 4);
    assert_eq!(config.allocator_shards(), 4);
    assert_eq!(config.allocator_shard_index, Some(2));
}

#[test]
fn a_segment_that_was_emptied_serves_as_a_fresh_one() {
    let mut pool = SegmentPool::new(1);
    pool.attach(spec(1, "a", 4096)).unwrap();
    let id = SegmentId::new(0, 1);
    let first = pool.reserve_on(id, 128).unwrap();
    let second = pool.reserve_on(id, 256).unwrap();
    let third = pool.reserve_on(id, 64).unwrap();
    assert_eq!(first.allocation.offset, 0);
    assert_eq!(second.allocation.offset, 128);
    assert_eq!(third.allocation.offset, 384);
    assert!(pool.reserve_on(id, 4096).is_err());
    pool.release(second);
    pool.release(first);
    pool.release(third);
    assert_eq!(pool.stats(id).unwrap().space.available_bytes, 4096);
    assert_eq!(pool.reserve_on(id, 4096).unwrap().allocation.offset, 0);
}

#[test]
fn the_node_budget_limits_the_ranges_of_a_segment() {
    let mut pool = SegmentPool::with_config(1, SegmentPoolConfig::new(3)).unwrap();
    pool.attach(spec(1, "a", 4096)).unwrap();
    let id = SegmentId::new(0, 1);
    let only = pool.reserve_on(id, 64).unwrap();
    assert!(pool.reserve_on(id, 64).is_err());
    pool.release(only);
    assert!(pool.reserve_on(id, 64).is_ok());
}

#[test]
fn an_excluded_segment_is_noted_once() {
    let id = SegmentId::new(0, 1);
    let other = SegmentId::new(0, 2);
    let constraints =
        PlacementConstraints::default().excluding(vec![id, other, id]).excluding(vec![other]);
    assert_eq!(constraints.excluded_segments(), &[id, other]);
}

#[test]
fn a_sharded_segment_is_split_into_disjoint_extents() {
    let config = SegmentPoolConfig::new(64).with_allocator_shards(4);
    let mut pool = SegmentPool::with_config(1, config).unwrap();
    pool.attach(spec(1, "a", 4096)).unwrap();
    let id = SegmentId::new(0, 1);
    let stats = pool.stats(id).unwrap();
    assert_eq!(stats.space.capacity_bytes, 4096);
    assert_eq!(stats.space.available_bytes, 4096);
    assert_eq!(stats.space.largest_free_region_bytes, 1024);
    assert_eq!(pool.reserve_on(id, 1025).unwrap_err(), ReserveError::OutOfSpace(id));
    let mut ranges = Vec::new();
    for extent in 0..4 {
        let range = pool.reserve_on(id, 1024).unwrap();
        assert_eq!(range.offset(), extent * 1024);
        ranges.push(range);
    }
    assert!(pool.reserve_on(id, 1).is_err());
    let stats = pool.stats(id).unwrap();
    assert_eq!(stats.space.used_bytes, 4096);
    assert_eq!(stats.usage.active_allocations, 4);
    pool.release(ranges.remove(2));
    assert_eq!(pool.stats(id).unwrap().usage.active_allocations, 3);
    assert_eq!(pool.reserve_on(id, 100).unwrap().offset(), 2048);
}

#[test]
fn a_pool_of_one_shard_keeps_to_its_extent() {
    let config = SegmentPoolConfig::new(64).for_allocator_shard(2, 4);
    let mut pool = SegmentPool::with_config(1, config).unwrap();
    pool.attach(spec(1, "a", 4098)).unwrap();
    let id = SegmentId::new(0, 1);
    assert_eq!(pool.stats(id).unwrap().space.capacity_bytes, 1024);
    let first = pool.reserve_on(id, 1000).unwrap();
    assert_eq!(first.offset(), 2050);
    assert_eq!(first.region(), MemoryRegion::new(0x1_0000_0000 + 2050, 1000));
    assert!(pool.reserve_on(id, 1000).is_err());
    assert_eq!(pool.attach(spec(2, "a", 2)).unwrap_err(), AttachError::ZeroSize);
    assert!(pool.attach(spec(3, "a", 3)).is_ok());
}

#[test]
fn what_is_given_back_can_be_reserved_again() {
    let mut pool = pool_of(vec![spec(1, "", 4096)]);
    let id = SegmentId::new(0, 1);
    let first = pool.reserve_on(id, 1024).unwrap();
    let second = pool.reserve_on(id, 2048).unwrap();
    let third = pool.reserve_on(id, 1024).unwrap();
    assert_eq!((first.offset(), second.offset(), third.offset()), (0, 1024, 3072));
    assert!(pool.reserve_on(id, 1).is_err());
    pool.release(second);
    // The free stretch is served up to its size class, here all of it.
    assert_eq!(pool.stats(id).unwrap().space.largest_free_region_bytes, 2048);
    assert!(pool.reserve_on(id, 2049).is_err());
    let again = pool.reserve_on(id, 2048).unwrap();
    assert_eq!(again.offset(), 1024);
    // Free stretches that meet are one.
    pool.release(third);
    pool.release(again);
    assert_eq!(pool.stats(id).unwrap().space.largest_free_region_bytes, 3072);
    assert_eq!(pool.reserve_on(id, 3072).unwrap().offset(), 1024);
    // A stretch of 1000 bytes has the size class 960.
    let mut odd = pool_of(vec![spec(2, "", 1000)]);
    let id = SegmentId::new(0, 2);
    assert_eq!(odd.stats(id).unwrap().space.largest_free_region_bytes, 960);
    assert!(odd.reserve_on(id, 961).is_err());
    assert!(odd.reserve_on(id, 960).is_ok());
}
