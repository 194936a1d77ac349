use rstorrent_engine::session_resources::{
    selected_waiter, storage_root_snapshots, FairExecutionState, RootExecutionState,
};
use rstorrent_engine::storage_file_pool::{
    is_root_failure, platform_outcome, platform_request, PlatformAnswer, PlatformReply,
    PlatformStorageFailure, PlatformStorageFailureKind, PlatformStorageOperation,
    PlatformStorageTarget, PoolState, StorageFileAccess, StorageFileKey, StorageFilePoolError,
    StorageFileRole, StorageObservation, PLATFORM_STORAGE_REQUEST_TIMEOUT_MILLIS,
};

fn root_counters(state: &FairExecutionState, root: &str) -> RootExecutionState {
    state
        .roots
        .iter()
        .find(|entry| entry.storage_root == root)
        .map(|entry| entry.counters)
        .expect("root is known")
}

#[test]
fn grants_rotate_roots_and_balance_counters() {
    let mut state = FairExecutionState::new();
    let a1 = state.enqueue("t1".to_owned(), "a".to_owned());
    let a2 = state.enqueue("t2".to_owned(), "a".to_owned());
    let b1 = state.enqueue("t3".to_owned(), "b".to_owned());
    assert_eq!((a1, a2, b1), (1, 2, 3));
    assert_eq!(root_counters(&state, "a").queued_high_water, 2);

    assert!(!state.try_grant(a2, 2));
    assert!(state.try_grant(a1, 2));
    assert_eq!(selected_waiter(&state), Some(b1));
    assert!(state.try_grant(b1, 2));
    assert!(!state.try_grant(a2, 2));
    assert_eq!(state.active, 2);

    state.release(&"a".to_owned());
    assert_eq!(state.active, 1);
    assert!(state.try_grant(a2, 2));
    let a = root_counters(&state, "a");
    assert_eq!((a.active, a.active_high_water, a.queued, a.queued_high_water), (1, 1, 0, 2));
    let b = root_counters(&state, "b");
    assert_eq!((b.active, b.queued), (1, 0));
}

#[test]
fn cancelled_waiters_leave_the_queue() {
    let mut state = FairExecutionState::new();
    let first = state.enqueue("t1".to_owned(), "c".to_owned());
    let second = state.enqueue("t2".to_owned(), "c".to_owned());
    state.cancel_waiter(first);
    state.cancel_waiter(99);
    assert_eq!(state.waiters.len(), 1);
    assert_eq!(selected_waiter(&state), Some(second));
    let c = root_counters(&state, "c");
    assert_eq!((c.queued, c.queued_high_water), (1, 2));
}

fn key(storage: &str, role: StorageFileRole) -> StorageFileKey {
    StorageFileKey {
        storage_id: storage.to_owned(),
        storage_generation: 1,
        role,
    }
}

#[test]
fn pool_cache_serves_hits_upgrades_and_evicts_least_recent() {
    let mut pool: PoolState<u32> = PoolState::new();
    let part = key("s", StorageFileRole::Part);
    let root = key("s", StorageFileRole::ContentRoot);
    assert_eq!(pool.cached(&part, StorageFileAccess::ReadExisting).ok(), Some(None));
    let version = pool.storage_version(&"s".to_owned()).ok().expect("open pool");
    assert_eq!(version, 0);
    assert!(pool
        .insert_opened(part.clone(), StorageFileAccess::ReadExisting, 7, version)
        .expect("cached")
        .is_none());
    assert_eq!(
        pool.cached(&part, StorageFileAccess::ReadExisting).ok(),
        Some(Some(7))
    );
    assert_eq!(
        pool.cached(&part, StorageFileAccess::ReadWriteExisting).ok(),
        Some(None)
    );
    let upgraded = pool
        .take_unsatisfying(&part, StorageFileAccess::ReadWriteExisting)
        .ok()
        .expect("open pool")
        .expect("read-only entry is taken out");
    assert_eq!(upgraded.handle, 7);
    assert!(pool
        .insert_opened(part.clone(), StorageFileAccess::ReadWriteExisting, 8, version)
        .expect("cached")
        .is_none());
    assert!(pool
        .insert_opened(root.clone(), StorageFileAccess::ReadExisting, 9, version)
        .expect("cached")
        .is_none());
    assert_eq!(pool.cached_entries(), 2);
    let evicted = pool.evict_one().expect("an entry is evicted");
    assert_eq!(evicted.handle, 8);
    assert_eq!(pool.cached_entries(), 1);
}

#[test]
fn pool_invalidation_refuses_stale_opens_and_close_refuses_all() {
    let mut pool: PoolState<u32> = PoolState::new();
    let first = key("s", StorageFileRole::Payload(0));
    let other = key("t", StorageFileRole::Payload(0));
    let before = pool.storage_version(&"s".to_owned()).ok().expect("open pool");
    let other_version = pool.storage_version(&"t".to_owned()).ok().expect("open pool");
    assert!(pool
        .insert_opened(first.clone(), StorageFileAccess::ReadExisting, 1, before)
        .is_ok());
    assert!(pool
        .insert_opened(other.clone(), StorageFileAccess::ReadExisting, 2, other_version)
        .is_ok());
    let removed = pool.invalidate_storage(&"s".to_owned());
    assert_eq!(removed.len(), 1);
    assert_eq!(removed[0].handle, 1);
    assert_eq!(pool.cached_entries(), 1);
    assert!(matches!(
        pool.insert_opened(first.clone(), StorageFileAccess::ReadExisting, 3, before),
        Err(StorageFilePoolError::Invalidated)
    ));
    assert_eq!(pool.storage_version(&"s".to_owned()).ok(), Some(1));
    let removed = pool.invalidate_key(&other).expect("cached entry");
    assert_eq!(removed.handle, 2);
    assert_eq!(pool.storage_version(&"t".to_owned()).ok(), Some(1));
    let _ = pool.invalidate_all();
    assert_eq!(pool.storage_version(&"s".to_owned()).ok(), Some(2));
    let _ = pool.close();
    assert!(pool.closed());
    assert!(matches!(
        pool.cached(&first, StorageFileAccess::ReadExisting),
        Err(StorageFilePoolError::Closed)
    ));
    assert!(matches!(
        pool.storage_version(&"s".to_owned()),
        Err(StorageFilePoolError::Closed)
    ));
}

#[test]
fn storage_admission_prefers_the_other_root_then_the_other_torrent() {
    let mut writes = FairExecutionState::new();
    let first = writes.enqueue("slow".to_owned(), "slow-root".to_owned());
    assert!(writes.try_grant(first, 2));
    let second = writes.enqueue("slow".to_owned(), "slow-root".to_owned());
    assert!(writes.try_grant(second, 2));
    let queued_slow = writes.enqueue("slow".to_owned(), "slow-root".to_owned());
    let queued_fast = writes.enqueue("fast".to_owned(), "fast-root".to_owned());
    assert!(!writes.try_grant(queued_slow, 2));
    assert!(!writes.try_grant(queued_fast, 2));
    writes.release(&"slow-root".to_owned());
    assert!(!writes.try_grant(queued_slow, 2));
    assert!(writes.try_grant(queued_fast, 2));
    writes.release(&"fast-root".to_owned());
    assert!(writes.try_grant(queued_slow, 2));
    let slow_root = root_counters(&writes, "slow-root");
    assert_eq!(slow_root.active_high_water, 2);
    assert!(slow_root.queued_high_water >= 1);

    let mut hashes = FairExecutionState::new();
    let held = hashes.enqueue("slow".to_owned(), "slow-root".to_owned());
    assert!(hashes.try_grant(held, 1));
    let same_torrent = hashes.enqueue("slow".to_owned(), "slow-root".to_owned());
    let peer_torrent = hashes.enqueue("slow-peer".to_owned(), "slow-root".to_owned());
    hashes.release(&"slow-root".to_owned());
    assert!(!hashes.try_grant(same_torrent, 1));
    assert!(hashes.try_grant(peer_torrent, 1));
    hashes.release(&"slow-root".to_owned());
    assert!(hashes.try_grant(same_torrent, 1));
    assert!(root_counters(&hashes, "slow-root").queued_high_water >= 2);
}

#[test]
fn root_snapshots_merge_writes_and_hashes_in_name_order() {
    let mut writes = FairExecutionState::new();
    let mut hashes = FairExecutionState::new();
    let w1 = writes.enqueue("t".to_owned(), "slow-root".to_owned());
    assert!(writes.try_grant(w1, 2));
    let _queued = writes.enqueue("t".to_owned(), "beta".to_owned());
    let h1 = hashes.enqueue("t".to_owned(), "alpha".to_owned());
    assert!(hashes.try_grant(h1, 1));
    let _h2 = hashes.enqueue("u".to_owned(), "slow-root".to_owned());
    let roots = storage_root_snapshots(&writes, &hashes);
    let names: Vec<&str> = roots.iter().map(|root| root.root_id.as_str()).collect();
    assert_eq!(names, ["alpha", "beta", "slow-root"]);
    assert_eq!((roots[0].active_hashes, roots[0].active_writes), (1, 0));
    assert_eq!((roots[1].queued_writes, roots[1].queued_hashes), (1, 0));
    assert_eq!(
        (roots[2].active_writes, roots[2].active_writes_high_water, roots[2].queued_hashes),
        (1, 1, 1)
    );
}

#[test]
fn platform_requests_copy_the_target_and_pick_the_access() {
    let target = PlatformStorageTarget {
        root_id: "root".to_owned(),
        storage_id: "storage".to_owned(),
        storage_generation: 3,
        role: StorageFileRole::Payload(2),
        path: vec!["a".to_owned(), "b.bin".to_owned()],
    };
    let open = platform_request(7, &target, PlatformStorageOperation::Open, StorageFileAccess::ReadWriteCreate);
    assert_eq!(open.request_id, 7);
    assert_eq!(open.root_id, "root");
    assert_eq!(open.path, ["a", "b.bin"]);
    assert_eq!(open.access, StorageFileAccess::ReadWriteCreate);
    assert_eq!(open.timeout_millis, PLATFORM_STORAGE_REQUEST_TIMEOUT_MILLIS);
    let observe = platform_request(8, &target, PlatformStorageOperation::Observe, StorageFileAccess::ReadWriteCreate);
    assert_eq!(observe.access, StorageFileAccess::ReadExisting);
    let delete = platform_request(9, &target, PlatformStorageOperation::Delete, StorageFileAccess::ReadExisting);
    assert_eq!(delete.access, StorageFileAccess::ReadWriteExisting);
}

#[test]
fn platform_replies_of_the_wrong_kind_are_internal_failures() {
    assert!(matches!(
        platform_outcome(PlatformStorageOperation::Open, PlatformReply::File(5u8)),
        Ok(PlatformAnswer::File(5))
    ));
    match platform_outcome::<u8>(PlatformStorageOperation::Open, PlatformReply::Deleted) {
        Err(StorageFilePoolError::PlatformFailure(failure)) => {
            assert_eq!(failure.kind, PlatformStorageFailureKind::Internal);
            assert_eq!(failure.detail, "platform returned deletion for an open request");
        }
        other => panic!("unexpected outcome: {other:?}"),
    }
    assert!(matches!(
        platform_outcome::<u8>(
            PlatformStorageOperation::Observe,
            PlatformReply::Observation(StorageObservation::missing())
        ),
        Ok(PlatformAnswer::Observation(_))
    ));
    match platform_outcome::<u8>(PlatformStorageOperation::Delete, PlatformReply::TimedOut) {
        Err(StorageFilePoolError::PlatformFailure(failure)) => {
            assert_eq!(failure.kind, PlatformStorageFailureKind::DeadlineExceeded);
            assert_eq!(failure.detail, "platform storage deletion exceeded its deadline");
        }
        other => panic!("unexpected outcome: {other:?}"),
    }
    assert!(matches!(
        platform_outcome::<u8>(PlatformStorageOperation::Delete, PlatformReply::Dropped),
        Err(StorageFilePoolError::PlatformUnavailable)
    ));
    let refused = PlatformStorageFailure {
        kind: PlatformStorageFailureKind::ProviderRefused,
        detail: "no".to_owned(),
    };
    assert!(matches!(
        platform_outcome::<u8>(PlatformStorageOperation::Open, PlatformReply::Failed(refused)),
        Err(StorageFilePoolError::PlatformFailure(failure)) if failure.kind == PlatformStorageFailureKind::ProviderRefused
    ));
    assert!(is_root_failure(PlatformStorageFailureKind::NonSeekable));
    assert!(!is_root_failure(PlatformStorageFailureKind::Missing));
}
