use cakemaster::client::config::ClientLifecycleConfig;
use cakemaster::client::error::{ClientLifecycleConfigError, ClientLifecycleError};
use cakemaster::client::lifecycle::{
    ActivateOutcome, CleanupReason, ClientRegistry, ClientSession, ClientState, ClientTick,
    HeartbeatOutcome,
};
use cakemaster::client::manager::{ClientManager, ClientManagerError, SegmentUnmountOutcome};
use cakemaster::object::content::ObjectContent;
use cakemaster::object::error::{LookupError, ObjectManagerError};
use cakemaster::object::identity::{NamespaceId, ObjectIdentity};
use cakemaster::object::manager::{ObjectManager, ObjectPutPlan};
use cakemaster::object::reclamation::CatalogTick;
use cakemaster::segment::descriptor::MemoryRegion;
use cakemaster::segment::error::{AttachError, SegmentStateError};
use cakemaster::segment::identity::{ClientId, SegmentId, SegmentIdentity};
use cakemaster::segment::placement::{AllocationSpec, PlacementRequest, ReplicaPolicy};
use cakemaster::segment::pool::SegmentPool;
use cakemaster::segment::spec::SegmentSpec;
use cakemaster::segment::stats::SegmentState;
use cakemaster::segment::transport::{TransportEndpoint, TransportProtocol};

fn client() -> ClientId {
    ClientId::new(91, 92)
}

fn segment_id() -> SegmentId {
    SegmentId::new(93, 94)
}

fn spec_of(id: SegmentId, owner: ClientId, base: u64) -> SegmentSpec {
    SegmentSpec::memory(
        SegmentIdentity::new(id, owner, "incarnation-fence".to_owned()),
        MemoryRegion::new(base, 4096),
        TransportEndpoint::new(TransportProtocol::Tcp, "127.0.0.1:12345".to_owned()),
    )
}

fn segment() -> SegmentSpec {
    spec_of(segment_id(), client(), 0x6_0000_0000)
}

fn tick(value: u64) -> ClientTick {
    ClientTick::new(value)
}

#[test]
fn claimed_old_job_cannot_remove_same_session_reuse() {
    let mut pool = SegmentPool::new(1);
    let objects = ObjectManager::new(1, &pool);
    let mut clients = ClientManager::new(1, objects.pending_write_revoker());
    clients.mount_segment(&mut pool, client(), segment(), tick(0)).unwrap();
    clients
        .schedule_graceful_unmount(&mut pool, client(), segment_id(), tick(10))
        .unwrap();
    let job = clients.claim_graceful_unmounts(tick(10)).pop().unwrap();

    clients.unmount_segment(&mut pool, client(), segment_id()).unwrap();
    clients.mount_segment(&mut pool, client(), segment(), tick(1)).unwrap();
    assert!(!clients.complete_graceful_unmount(&mut pool, &job).unwrap());
    assert_eq!(pool.segment(segment_id()).unwrap().stats().state, SegmentState::Accepting);
}

#[test]
fn claimed_old_job_cannot_cross_a_new_client_generation() {
    let mut pool = SegmentPool::new(1);
    let mut objects = ObjectManager::new(1, &pool);
    let mut clients = ClientManager::with_config(
        1,
        objects.pending_write_revoker(),
        ClientLifecycleConfig::new(4).with_ttl(5).with_cleanup_scan_budget(4),
    )
    .unwrap();
    clients.mount_segment(&mut pool, client(), segment(), tick(0)).unwrap();
    clients
        .schedule_graceful_unmount(&mut pool, client(), segment_id(), tick(10))
        .unwrap();
    let job = clients.claim_graceful_unmounts(tick(10)).pop().unwrap();

    clients.run_cleanup_step(&mut pool, &mut objects, tick(10), CatalogTick::new(10));
    clients.mount_segment(&mut pool, client(), segment(), tick(10)).unwrap();
    assert!(!clients.complete_graceful_unmount(&mut pool, &job).unwrap());
    assert_eq!(pool.segment(segment_id()).unwrap().stats().state, SegmentState::Accepting);
}

#[test]
fn sessions_expire_and_start_anew() {
    let mut registry =
        ClientRegistry::with_config(ClientLifecycleConfig::new(1).with_ttl(5)).unwrap();
    let first = registry.activate(client(), tick(0)).unwrap().session();
    assert_eq!(first.generation(), 1);
    assert_eq!(registry.activate(client(), tick(1)), Ok(ActivateOutcome::AlreadyActive(first)));
    assert_eq!(registry.heartbeat(client(), tick(5)), HeartbeatOutcome::Alive(first));
    assert_eq!(registry.heartbeat(client(), tick(10)), HeartbeatOutcome::NeedRemount);
    assert_eq!(registry.state(client()), Some(ClientState::Expired));
    assert!(!registry.is_active(first));
    assert_eq!(
        registry.activate(client(), tick(10)),
        Err(ClientLifecycleError::CleanupInProgress { state: ClientState::Expired })
    );
    let cleanups = registry.claim_due_cleanups(tick(10), 8);
    assert_eq!(cleanups.len(), 1);
    assert_eq!(cleanups[0].reason(), CleanupReason::HeartbeatExpired);
    for cleanup in cleanups {
        cleanup.finish(&mut registry).unwrap();
    }
    assert!(registry.is_empty());
    let second = registry.activate(client(), tick(11)).unwrap().session();
    assert_eq!(second.generation(), 2);
    assert_ne!(first, second);
}

#[test]
fn cleanups_that_are_given_back_are_claimed_again() {
    let mut registry = ClientRegistry::new();
    let session = registry.activate(client(), tick(0)).unwrap().session();
    let cleanup =
        registry.begin_drain(session, CleanupReason::GracefulUnmount).unwrap().unwrap();
    assert_eq!(registry.state(client()), Some(ClientState::Draining));
    assert!(registry.begin_drain(session, CleanupReason::ServerShutdown).unwrap().is_none());
    registry.release_cleanup(cleanup.session());
    let again = registry.claim_due_cleanups(tick(0), 1);
    assert_eq!(again.len(), 1);
    assert_eq!(again[0].session(), session);
    assert_eq!(again[0].reason(), CleanupReason::GracefulUnmount);
    assert_eq!(registry.finish_cleanup(session), Ok(()));
    assert_eq!(registry.state(client()), None);
}

#[test]
fn registries_refuse_what_they_must() {
    assert_eq!(
        ClientLifecycleConfig::new(0).validate(),
        Err(ClientLifecycleConfigError::ZeroMaxClients)
    );
    assert_eq!(
        ClientLifecycleConfig::new(1).with_ttl(0).validate(),
        Err(ClientLifecycleConfigError::ZeroTtl)
    );
    assert_eq!(
        ClientLifecycleConfig::new(1).with_cleanup_scan_budget(0).validate(),
        Err(ClientLifecycleConfigError::ZeroCleanupScanBudget)
    );
    let mut registry = ClientRegistry::with_config(ClientLifecycleConfig::new(1)).unwrap();
    assert_eq!(
        registry.activate(ClientId::nil(), tick(0)),
        Err(ClientLifecycleError::NilClientId)
    );
    let session = registry.activate(client(), tick(0)).unwrap().session();
    assert_eq!(
        registry.activate(ClientId::new(1, 1), tick(0)),
        Err(ClientLifecycleError::CapacityExceeded { max_clients: 1 })
    );
    assert_eq!(
        registry.finish_cleanup(session),
        Err(ClientLifecycleError::CleanupNotStarted)
    );
    let stale = ClientSession { generation: 7, ..session };
    assert_eq!(
        registry.begin_drain(stale, CleanupReason::ServerShutdown).unwrap_err(),
        ClientLifecycleError::StaleSession
    );
    assert_eq!(
        registry.active_session(ClientId::new(1, 1)),
        Err(ClientLifecycleError::ClientNotActive)
    );
    assert_eq!(registry.rollback_activation(session), Ok(()));
    assert_eq!(registry.len(), 0);
}

#[test]
fn a_deadline_moves_with_heartbeats() {
    let mut registry =
        ClientRegistry::with_config(ClientLifecycleConfig::new(4).with_ttl(5)).unwrap();
    let session = registry.activate(client(), tick(0)).unwrap().session();
    registry.heartbeat(client(), tick(4));
    assert!(registry.claim_due_cleanups(tick(6), 8).is_empty());
    assert!(registry.is_active(session));
    assert_eq!(registry.claim_due_cleanups(tick(9), 8).len(), 1);
}

#[test]
fn mounting_is_checked_and_repeated() {
    let mut pool = SegmentPool::new(1);
    let objects = ObjectManager::new(1, &pool);
    let mut clients = ClientManager::new(1, objects.pending_write_revoker());
    assert!(matches!(
        clients.mount_segment(&mut pool, ClientId::nil(), segment(), tick(0)),
        Err(ClientManagerError::Lifecycle(ClientLifecycleError::NilClientId))
    ));
    assert!(matches!(
        clients.mount_segment(&mut pool, ClientId::new(1, 1), segment(), tick(0)),
        Err(ClientManagerError::SegmentState(SegmentStateError::OwnerMismatch { .. }))
    ));
    let session = clients
        .mount_segment(&mut pool, client(), segment(), tick(0))
        .unwrap()
        .session();
    assert!(matches!(
        clients.mount_segment(&mut pool, client(), segment(), tick(1)),
        Ok(ActivateOutcome::AlreadyActive(again)) if again == session
    ));
    let moved = spec_of(segment_id(), client(), 0x7_0000_0000);
    assert!(matches!(
        clients.mount_segment(&mut pool, client(), moved, tick(1)),
        Err(ClientManagerError::ActiveRemountConflict)
    ));
    let overlapping = spec_of(SegmentId::new(1, 2), client(), 0x6_0000_0800);
    assert!(matches!(
        clients.mount_segment(&mut pool, client(), overlapping, tick(1)),
        Err(ClientManagerError::Attach(AttachError::OverlappingAddressRange { existing }))
            if existing == segment_id()
    ));
    let second = spec_of(SegmentId::new(1, 2), client(), 0x7_0000_0000);
    clients.mount_segment(&mut pool, client(), second, tick(1)).unwrap();
    assert_eq!(pool.len(), 2);
    assert_eq!(clients.write_owner(client()).unwrap().client(), client());
    assert!(clients.shares_state_with(&clients));
}

#[test]
fn unmounting_twice_is_unmounting_once() {
    let mut pool = SegmentPool::new(1);
    let objects = ObjectManager::new(1, &pool);
    let mut clients = ClientManager::new(1, objects.pending_write_revoker());
    clients.mount_segment(&mut pool, client(), segment(), tick(0)).unwrap();
    assert!(matches!(
        clients.unmount_segment(&mut pool, ClientId::new(1, 1), segment_id()),
        Err(ClientManagerError::SegmentState(SegmentStateError::OwnerMismatch { .. }))
    ));
    assert!(matches!(
        clients.unmount_segment(&mut pool, client(), SegmentId::nil()),
        Err(ClientManagerError::SegmentState(SegmentStateError::NotFound(_)))
    ));
    assert!(matches!(
        clients.unmount_segment(&mut pool, client(), segment_id()),
        Ok(SegmentUnmountOutcome::Unmounted)
    ));
    assert!(matches!(
        clients.unmount_segment(&mut pool, client(), segment_id()),
        Ok(SegmentUnmountOutcome::AlreadyAbsent)
    ));
    assert!(pool.is_empty());
}

#[test]
fn graceful_removals_wait_for_the_earliest_deadline() {
    let mut pool = SegmentPool::new(1);
    let objects = ObjectManager::new(1, &pool);
    let mut clients = ClientManager::new(1, objects.pending_write_revoker());
    clients.mount_segment(&mut pool, client(), segment(), tick(0)).unwrap();
    for deadline in [30, 20, 40] {
        clients
            .schedule_graceful_unmount(&mut pool, client(), segment_id(), tick(deadline))
            .unwrap();
    }
    assert_eq!(clients.next_graceful_unmount_deadline(), Some(tick(20)));
    assert_eq!(pool.segment(segment_id()).unwrap().stats().state, SegmentState::Quiesced);
    assert!(matches!(
        clients.mount_segment(&mut pool, client(), segment(), tick(1)),
        Err(ClientManagerError::SegmentUnavailable(id)) if id == segment_id()
    ));
    let early = clients.run_graceful_unmount_step(&mut pool, tick(19));
    assert_eq!(early.completed, 0);
    let due = clients.run_graceful_unmount_step(&mut pool, tick(20));
    assert_eq!((due.completed, due.retried, due.stale_or_cancelled), (1, 0, 0));
    assert!(pool.is_empty());
    assert_eq!(clients.next_graceful_unmount_deadline(), None);
}

#[test]
fn remounting_sets_the_whole_stage() {
    let mut pool = SegmentPool::new(1);
    let objects = ObjectManager::new(1, &pool);
    let mut clients = ClientManager::new(1, objects.pending_write_revoker());
    let specs = || {
        vec![
            spec_of(SegmentId::new(0, 1), client(), 0x1_0000_0000),
            spec_of(SegmentId::new(0, 2), client(), 0x2_0000_0000),
        ]
    };
    let session = clients.remount(&mut pool, client(), specs(), tick(0)).unwrap().session();
    assert_eq!(pool.snapshot().len(), 2);
    assert!(matches!(
        clients.remount(&mut pool, client(), specs(), tick(1)),
        Ok(ActivateOutcome::AlreadyActive(again)) if again == session
    ));
    assert!(matches!(
        clients.remount(&mut pool, client(), Vec::new(), tick(1)),
        Err(ClientManagerError::ActiveRemountConflict)
    ));
}

#[test]
fn a_failed_remount_leaves_nothing_behind() {
    let mut pool = SegmentPool::new(1);
    let objects = ObjectManager::new(1, &pool);
    let mut clients = ClientManager::new(1, objects.pending_write_revoker());
    let specs = vec![
        spec_of(SegmentId::new(0, 1), client(), 0x1_0000_0000),
        spec_of(SegmentId::new(0, 2), client(), 0x1_0000_0000),
    ];
    assert!(matches!(
        clients.remount(&mut pool, client(), specs, tick(0)),
        Err(ClientManagerError::Attach(AttachError::OverlappingAddressRange { .. }))
    ));
    assert!(pool.is_empty());
    assert_eq!(clients.registry().state(client()), None);
    let foreign = vec![
        spec_of(SegmentId::new(0, 3), client(), 0x3_0000_0000),
        spec_of(SegmentId::new(0, 1), ClientId::new(5, 5), 0x1_0000_0000),
    ];
    assert!(matches!(
        clients.remount(&mut pool, client(), foreign, tick(0)),
        Err(ClientManagerError::SegmentState(SegmentStateError::OwnerMismatch { .. }))
    ));
    assert!(pool.segment(SegmentId::new(0, 1)).is_none());
    assert!(pool.is_empty());
    assert_eq!(clients.registry().state(client()), None);
}

#[test]
fn a_remount_meets_segments_of_another_owner() {
    let mut pool = SegmentPool::new(1);
    let objects = ObjectManager::new(1, &pool);
    let mut clients = ClientManager::new(1, objects.pending_write_revoker());
    let other = ClientId::new(5, 5);
    let id = SegmentId::new(0, 1);
    let theirs = || spec_of(id, other, 0x1_0000_0000);
    // A registration that is refused is reported before any owner is looked at.
    let mixed = vec![
        spec_of(SegmentId::new(0, 2), other, 0x2_0000_0000),
        spec_of(SegmentId::nil(), client(), 0x3_0000_0000),
    ];
    assert!(matches!(
        clients.remount(&mut pool, client(), mixed, tick(0)),
        Err(ClientManagerError::Attach(AttachError::NilSegmentId))
    ));
    assert!(pool.is_empty());
    // A hidden one cannot be published by this client, and stays as it is.
    pool.attach(theirs()).unwrap();
    pool.quiesce(other, id).unwrap();
    match clients.remount(&mut pool, client(), vec![theirs()], tick(0)) {
        Err(ClientManagerError::Rollback { segment, source }) => {
            assert_eq!(segment, id);
            assert_eq!(
                source,
                SegmentStateError::OwnerMismatch { segment: id, expected: other, actual: client() }
            );
        }
        _ => panic!("the hidden segment belongs to another client"),
    }
    assert_eq!(pool.stats(id).unwrap().state, SegmentState::Quiesced);
    assert_eq!(clients.registry().state(client()), None);
    // One that accepts already needs nothing.
    pool.reactivate(other, id).unwrap();
    assert!(matches!(
        clients.remount(&mut pool, client(), vec![theirs()], tick(0)),
        Ok(ActivateOutcome::Activated(_))
    ));
    assert_eq!(pool.stats(id).unwrap().state, SegmentState::Accepting);
}

#[test]
fn draining_revokes_writes_and_invalidates_segments() {
    let mut pool = SegmentPool::new(1);
    let mut objects = ObjectManager::new(1, &pool);
    let mut clients = ClientManager::new(1, objects.pending_write_revoker());
    let session =
        clients.mount_segment(&mut pool, client(), segment(), tick(0)).unwrap().session();
    let admission = clients.write_admission(client()).unwrap();
    let plan = ObjectPutPlan::new(
        ObjectContent::new(64),
        PlacementRequest::new(AllocationSpec::new(64), ReplicaPolicy::new(1)),
    );
    let name = || ObjectIdentity::new(NamespaceId::default(), "pending".to_owned());
    objects
        .start_put(
            &mut pool,
            clients.registry(),
            name(),
            admission,
            &plan,
            CatalogTick::new(0),
        )
        .unwrap();
    let report = clients
        .drain_sessions(
            &mut pool,
            &mut objects,
            &vec![session],
            CleanupReason::ServerShutdown,
            CatalogTick::new(1),
        )
        .unwrap();
    assert_eq!(report.completed_sessions, 1);
    assert_eq!(report.revoked_pending_writes, 1);
    assert_eq!(report.invalidated_segments, 1);
    assert!(pool.is_empty());
    assert!(!admission.is_active(clients.registry()));
    assert_eq!(
        objects.start_put(
            &mut pool,
            clients.registry(),
            name(),
            admission,
            &plan,
            CatalogTick::new(1),
        )
        .unwrap_err(),
        ObjectManagerError::NoAvailableReplicas
    );
    assert!(matches!(
        objects.get(&pool, name().as_lookup(), CatalogTick::new(2)),
        Err(LookupError::NotFound)
    ));
}

#[test]
fn a_failed_drain_leaves_cleanups_to_maintenance() {
    let mut pool = SegmentPool::new(1);
    let mut objects = ObjectManager::new(1, &pool);
    let mut clients = ClientManager::new(1, objects.pending_write_revoker());
    let session =
        clients.mount_segment(&mut pool, client(), segment(), tick(0)).unwrap().session();
    let unknown = ClientSession { client_id: ClientId::new(8, 8), generation: 1 };
    assert!(matches!(
        clients.drain_sessions(
            &mut pool,
            &mut objects,
            &vec![session, unknown],
            CleanupReason::GracefulUnmount,
            CatalogTick::new(0),
        ),
        Err(ClientManagerError::Lifecycle(ClientLifecycleError::ClientNotActive))
    ));
    assert_eq!(clients.registry().state(client()), Some(ClientState::Draining));
    assert_eq!(pool.len(), 1);
    let report =
        clients.run_cleanup_step(&mut pool, &mut objects, tick(0), CatalogTick::new(0));
    assert_eq!(report.completed_sessions, 1);
    assert_eq!(report.invalidated_segments, 1);
    assert_eq!(clients.registry().state(client()), None);
}

#[test]
fn client_ids_are_numbers_of_two_halves() {
    let id = ClientId::new(1, 2);
    assert_eq!(id.to_raw(), (1_u128 << 64) | 2);
    assert_eq!(ClientId::from(id.to_raw()), id);
    assert_eq!(u128::from(SegmentId::new(0, 9)), 9);
    assert_eq!(SegmentId::from(u128::MAX), SegmentId::new(u64::MAX, u64::MAX));
}
