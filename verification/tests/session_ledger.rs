use rstorrent_engine::session_ledger::{
    DownloadResourceLimits, ExecutionActivity, SessionDownloadResources,
};
use rstorrent_engine::session_resources::{FairExecutionState, SessionDownloadResourceSnapshot};

fn resources() -> SessionDownloadResources {
    SessionDownloadResources::new(
        DownloadResourceLimits {
            max_outstanding_request_bytes: 32,
            max_buffered_payload_bytes: 16,
            max_active_piece_bytes: 64,
            max_active_pieces: 2,
        },
        1,
        1,
    )
}

fn snapshot(resources: &SessionDownloadResources) -> SessionDownloadResourceSnapshot {
    let writes = FairExecutionState::new();
    let hashes = FairExecutionState::new();
    resources.snapshot(&writes, &hashes, ExecutionActivity::default())
}

#[test]
fn generation_registrations_share_hard_memory_ceilings_and_release_once() {
    let mut resources = resources();
    let first = resources.register("first", 1, "root-a");
    let second = resources.register("second", 1, "root-b");

    assert!(resources.try_reserve_request_bytes(&first, 24));
    assert!(!resources.try_reserve_request_bytes(&second, 16));
    assert!(resources.try_reserve_request_bytes(&second, 8));
    assert!(resources.try_reserve_payload_bytes(&first, 16));
    assert!(!resources.try_reserve_payload_bytes(&second, 1));
    assert!(resources.try_reserve_active_piece(&first, 48));
    assert!(resources.try_reserve_active_piece(&second, 16));
    assert!(!resources.try_reserve_active_piece(&second, 1));

    let full = snapshot(&resources);
    assert_eq!(full.outstanding_request_bytes, 32);
    assert_eq!(full.buffered_payload_bytes, 16);
    assert_eq!(full.active_piece_bytes, 64);
    assert_eq!(full.active_pieces, 2);
    assert_eq!(full.registered_generations, 2);

    resources.release_request_bytes(&first, 24);
    resources.release_request_bytes(&second, 8);
    resources.release_payload_bytes(&first, 16);
    resources.release_active_piece(&first, 48);
    resources.release_active_piece(&second, 16);
    resources.unregister(first);
    resources.unregister(second);
    let released = snapshot(&resources);
    assert_eq!(released.outstanding_request_bytes, 0);
    assert_eq!(released.buffered_payload_bytes, 0);
    assert_eq!(released.active_piece_bytes, 0);
    assert_eq!(released.active_pieces, 0);
    assert_eq!(released.registered_generations, 0);
}

#[test]
fn final_registration_drop_recovers_abandoned_accounting() {
    let mut resources = resources();
    let registration = resources.register("abandoned", 9, "root");
    assert!(resources.try_reserve_request_bytes(&registration, 32));
    assert!(resources.try_reserve_payload_bytes(&registration, 16));
    assert!(resources.try_reserve_active_piece(&registration, 64));
    resources.unregister(registration);
    let snapshot = snapshot(&resources);
    assert_eq!(snapshot.outstanding_request_bytes, 0);
    assert_eq!(snapshot.buffered_payload_bytes, 0);
    assert_eq!(snapshot.active_piece_bytes, 0);
    assert_eq!(snapshot.active_pieces, 0);
}

#[test]
fn outbound_turns_yield_between_repeated_requests() {
    let mut resources = resources();
    let first = resources.register("first", 1, "root-a");
    let second = resources.register("second", 1, "root-b");
    assert!(resources.try_acquire_outbound_turn(&first));
    assert!(!resources.try_acquire_outbound_turn(&first));
    assert!(resources.try_acquire_outbound_turn(&second));
    assert!(resources.try_acquire_outbound_turn(&first));
    assert_eq!(snapshot(&resources).outbound_turns_granted, 3);
}

#[test]
fn refused_active_piece_keeps_only_the_byte_high_water() {
    let mut resources = resources();
    let torrent = resources.register("pieces", 1, "root");
    assert!(resources.try_reserve_active_piece(&torrent, 10));
    assert!(resources.try_reserve_active_piece(&torrent, 10));
    assert!(!resources.can_reserve_active_piece(30));
    assert!(!resources.try_reserve_active_piece(&torrent, 30));
    let after = snapshot(&resources);
    assert_eq!(after.active_piece_bytes, 20);
    assert_eq!(after.active_pieces, 2);
    assert_eq!(after.active_piece_bytes_high_water, 50);
    assert_eq!(after.active_pieces_high_water, 2);
    assert!(!resources.try_reserve_active_piece(&torrent, 45));
    assert_eq!(snapshot(&resources).active_piece_bytes_high_water, 50);
}

#[test]
fn release_returns_totals_but_keeps_high_water() {
    let mut resources = resources();
    let torrent = resources.register("t", 3, "root");
    assert!(resources.can_reserve_request_bytes(32));
    assert!(!resources.can_reserve_request_bytes(33));
    assert!(!resources.can_reserve_request_bytes(usize::MAX));
    assert!(resources.try_reserve_request_bytes(&torrent, 20));
    resources.release_request_bytes(&torrent, 20);
    let after = snapshot(&resources);
    assert_eq!(after.outstanding_request_bytes, 0);
    assert_eq!(after.outstanding_request_high_water, 20);
    assert!(!resources.try_reserve_request_bytes(&torrent, usize::MAX));
    assert_eq!(snapshot(&resources).outstanding_request_bytes, 0);
}

#[test]
fn same_generation_registered_twice_counts_once() {
    let mut resources = resources();
    let first = resources.register("same", 4, "root");
    let second = resources.register("same", 4, "root");
    assert_ne!(first, second);
    assert_eq!(snapshot(&resources).registered_generations, 1);
    let other = resources.register("same", 5, "root");
    assert_eq!(snapshot(&resources).registered_generations, 2);
    resources.unregister(first);
    assert_eq!(snapshot(&resources).registered_generations, 1);
    resources.unregister(second);
    resources.unregister(other);
    assert_eq!(snapshot(&resources).registered_generations, 0);
}

#[test]
fn outbound_turns_key_by_torrent_and_generation() {
    let mut resources = resources();
    let old = resources.register("t", 1, "root");
    let new = resources.register("t", 2, "root");
    let again = resources.register("t", 1, "root");
    assert!(resources.try_acquire_outbound_turn(&old));
    assert!(!resources.try_acquire_outbound_turn(&again));
    assert!(resources.try_acquire_outbound_turn(&new));
    assert!(resources.try_acquire_outbound_turn(&again));
    assert_eq!(snapshot(&resources).outbound_turns_granted, 3);
    assert_eq!(resources.storage_write_concurrency(), 1);
    assert_eq!(resources.storage_hash_concurrency(), 1);
    assert_eq!(resources.limits().max_active_pieces, 2);
}
