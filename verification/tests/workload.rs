use cakemaster::client::lifecycle::{CleanupReason, ClientRegistry, ClientTick};
use cakemaster::object::catalog::ObjectCatalog;
use cakemaster::object::identity::{NamespaceId, ObjectIdentity, ObjectLookup};
use cakemaster::object::reclamation::CatalogTick;
use cakemaster::object::write::WriteAdmission;
use cakemaster::segment::descriptor::MemoryRegion;
use cakemaster::segment::identity::{ClientId, SegmentId, SegmentIdentity};
use cakemaster::segment::pool::SegmentPool;
use cakemaster::segment::spec::SegmentSpec;
use cakemaster::segment::transport::{TransportEndpoint, TransportProtocol};
use cakemaster::workload::put::put_object;
use cakemaster::workload::{
    allocator_nodes_for, divided_up, is_drop, next_random, percentile_fraction, plan_batch,
    pool_nodes_for, rotated_mode, settled_to_low, validate_server_arguments, ArgumentFault,
    BatchPlan, CollectorAction, CollectorSight, Operation, PutOutcome, Scenario,
    WatermarkArguments, WorkerTally,
};

#[test]
fn workers_spread_by_scenario() {
    assert_eq!(Scenario::Sharded.candidate_index(5, 9, 4), 1);
    assert_eq!(Scenario::Striped.candidate_index(5, 9, 4), 2);
    assert_eq!(Scenario::Contended.candidate_index(5, 9, 4), 0);
    assert_eq!(Scenario::CapacityFailed.candidate_index(5, 9, 4), 0);
    assert_eq!(Scenario::CapacityFailed.name(), "capacity_failed");
    assert_eq!(Scenario::Striped.name(), "striped");
    assert_eq!(Operation::Exists.name(), "exists");
}

#[test]
fn percentiles_are_figures() {
    let figures: Vec<u64> = (1..=100).collect();
    assert_eq!(percentile_fraction(&figures, 99, 100), 99);
    assert_eq!(percentile_fraction(&figures, 999, 1000), 100);
    assert_eq!(percentile_fraction(&figures, 0, 100), 1);
    assert_eq!(percentile_fraction(&figures, 7, 1), 100);
    assert_eq!(percentile_fraction(&[], 99, 100), 0);
    assert_eq!(percentile_fraction(&[8], 1, 2), 8);
    assert_eq!(divided_up(7, 2), 4);
    assert_eq!(divided_up(8, 2), 4);
    assert_eq!(divided_up(usize::MAX, 1), usize::MAX);
}

#[test]
fn random_numbers_follow_each_other() {
    assert_eq!(next_random(1), {
        let mut random = 1_u64;
        random ^= random << 13;
        random ^= random >> 7;
        random ^= random << 17;
        random
    });
    assert_eq!(next_random(0), 0);
}

#[test]
fn outcomes_are_tallied() {
    let mut tally = WorkerTally::new();
    tally.record_put(PutOutcome::Stored, false, 1);
    tally.record_put(PutOutcome::Stored, true, 2);
    tally.record_put(PutOutcome::NotStarted, true, 3);
    tally.record_put(PutOutcome::NotFinished, true, 4);
    tally.record_get(true, true, 5);
    tally.record_get(false, false, 6);
    let mut all = WorkerTally::new();
    all.absorb(&tally);
    all.absorb(&tally);
    assert_eq!(all.before_puts, vec![1, 1]);
    assert_eq!(all.pressure_puts, vec![2, 3, 4, 2, 3, 4]);
    assert_eq!(all.pressure_put_successes, vec![2, 2]);
    assert_eq!(all.pressure_put_failures, vec![3, 4, 3, 4]);
    assert_eq!(all.pressure_gets, vec![5, 5]);
    assert_eq!(all.before_gets, vec![6, 6]);
    assert_eq!(
        (all.put_successes, all.put_start_failures, all.put_end_failures),
        (4, 2, 2)
    );
    assert_eq!((all.get_hits, all.get_failures), (2, 2));
    assert_eq!(all.evicted(10, 9), Some(5));
    assert_eq!(all.evicted(10, 15), None);
}

#[test]
fn the_collector_goes_on_until_usage_settles() {
    let sight = CollectorSight {
        over_high: true,
        pressure_started: true,
        reclaim_debt: 0,
        retired_bytes: 0,
        workload_running: false,
        settle_expired: false,
    };
    assert!(sight.should_request());
    assert!(!CollectorSight { reclaim_debt: 1, ..sight }.should_request());
    assert_eq!(sight.next_action(), CollectorAction::Wait);
    assert_eq!(
        CollectorSight { retired_bytes: 1, ..sight }.next_action(),
        CollectorAction::Collect
    );
    assert_eq!(
        CollectorSight { over_high: false, ..sight }.next_action(),
        CollectorAction::Stop
    );
    assert_eq!(
        CollectorSight { settle_expired: true, ..sight }.next_action(),
        CollectorAction::Stop
    );
    assert_eq!(
        CollectorSight { settle_expired: true, workload_running: true, ..sight }.next_action(),
        CollectorAction::Wait
    );
    assert!(is_drop(2049, 1024, 1024));
    assert!(!is_drop(2048, 1024, 1024));
    assert!(settled_to_low(5, 5, 0, 0));
    assert!(!settled_to_low(5, 5, 0, 1));
}

#[test]
fn batches_take_turns_and_leave_nothing() {
    let plans: Vec<BatchPlan> = (0..divided_up(10, 4)).map(|batch| plan_batch(4, 10, 2, batch)).collect();
    assert_eq!(plans[0], BatchPlan { tenant: 0, first: 0, count: 4 });
    assert_eq!(plans[1], BatchPlan { tenant: 1, first: 4, count: 4 });
    assert_eq!(plans[2], BatchPlan { tenant: 0, first: 8, count: 2 });
    assert_eq!((0..4).map(|offset| rotated_mode(3, offset)).collect::<Vec<_>>(), vec![3, 0, 1, 2]);
}

#[test]
fn sizes_fit_the_allocator() {
    assert_eq!(allocator_nodes_for(100, 2, 5), Some(1130));
    assert_eq!(allocator_nodes_for(usize::MAX, 1, 2), None);
    assert_eq!(allocator_nodes_for(1, usize::MAX, usize::MAX), None);
    assert_eq!(pool_nodes_for(0), 4096);
    assert_eq!(pool_nodes_for(usize::MAX), u32::MAX - 2);
}

#[test]
fn benchmark_arguments_are_checked() {
    let good = WatermarkArguments::usual();
    assert_eq!(good.validate(), Ok(()));
    let fault = |arguments: WatermarkArguments| arguments.validate().unwrap_err();
    assert_eq!(fault(WatermarkArguments { num_objects: 0, ..good }), ArgumentFault::NoObjects);
    assert_eq!(fault(WatermarkArguments { threads: 0, ..good }), ArgumentFault::NoThreads);
    assert_eq!(
        fault(WatermarkArguments { operations_per_thread: 1, ..good }),
        ArgumentFault::TooFewOperations
    );
    assert_eq!(
        fault(WatermarkArguments { hot_objects: good.num_objects, ..good }),
        ArgumentFault::HotObjectsOutOfRange
    );
    assert_eq!(
        fault(WatermarkArguments { collector_interval_ms: 0, ..good }),
        ArgumentFault::NoCollectorInterval
    );
    assert_eq!(
        fault(WatermarkArguments { collect_budget: 0, ..good }),
        ArgumentFault::NoCollectBudget
    );
    assert_eq!(fault(WatermarkArguments { rounds: 0, ..good }), ArgumentFault::NoRounds);
    assert_eq!(validate_server_arguments(0, 3), Err(ArgumentFault::NoSegmentBytes));
    assert_eq!(validate_server_arguments(1, 2), Err(ArgumentFault::AllocationsOutOfRange));
    assert_eq!(
        validate_server_arguments(1, u32::MAX - 1),
        Err(ArgumentFault::AllocationsOutOfRange)
    );
    assert_eq!(validate_server_arguments(1, 3), Ok(()));
}

#[test]
fn a_put_is_stored_refused_or_left_unfinished() {
    let mut pool = SegmentPool::new(1);
    let owner = ClientId::new(1, 2);
    let id = SegmentId::new(0, 1);
    pool.attach(SegmentSpec::memory(
        SegmentIdentity::new(id, owner, "memory".to_owned()),
        MemoryRegion::new(0x1_0000_0000, 2048),
        TransportEndpoint::new(TransportProtocol::Tcp, "10.0.0.1:1".to_owned()),
    ))
    .unwrap();
    let candidate = pool.segment(id).unwrap();
    let mut catalog = ObjectCatalog::new(9);
    let mut sessions = ClientRegistry::new();
    let name = |key: &str| ObjectIdentity::new(NamespaceId::default(), key.to_owned());
    let at = CatalogTick::new(0);
    let admission = || WriteAdmission::unmanaged(owner);
    let put = |pool: &mut SegmentPool,
                   catalog: &mut ObjectCatalog,
                   sessions: &ClientRegistry,
                   key: &str,
                   admission: WriteAdmission| {
        put_object(pool, catalog, sessions, &candidate, name(key), admission, 1024, at)
    };
    assert_eq!(put(&mut pool, &mut catalog, &sessions, "a", admission()), PutOutcome::Stored);
    assert_eq!(catalog.stats().published_objects, 1);
    let read = catalog.get(&pool, ObjectLookup::new(NamespaceId::default(), "a"), at).unwrap();
    assert_eq!(read.object().content().logical_bytes, 1024);
    catalog.release_handle(read.object);
    // The name is taken, so the range goes back.
    assert_eq!(put(&mut pool, &mut catalog, &sessions, "a", admission()), PutOutcome::NotStarted);
    assert_eq!(pool.stats(id).unwrap().space.used_bytes, 1024);
    // The writer's session is over, so the range goes back and the name stays free.
    let session = sessions.activate(owner, ClientTick::new(0)).unwrap().session();
    let managed = WriteAdmission::guarded(sessions.active_session_guard(owner).unwrap());
    sessions.begin_drain(session, CleanupReason::HeartbeatExpired).unwrap();
    assert_eq!(put(&mut pool, &mut catalog, &sessions, "b", managed), PutOutcome::NotFinished);
    assert_eq!(pool.stats(id).unwrap().space.used_bytes, 1024);
    assert_eq!(catalog.stats().claims, 0);
    assert_eq!(put(&mut pool, &mut catalog, &sessions, "b", admission()), PutOutcome::Stored);
    assert_eq!(pool.stats(id).unwrap().space.used_bytes, 2048);
    // No range is left.
    assert_eq!(put(&mut pool, &mut catalog, &sessions, "c", admission()), PutOutcome::NotStarted);
    assert_eq!(catalog.stats().published_objects, 2);
}
