use rstorrent_engine::session_resources::{
    checked_release, load, selected_waiter, try_reserve, ExecutionWaiter, FairExecutionState,
    RootGrant,
};
use rstorrent_engine::session_udp::{
    saturating_add, Ipv4FragmentationProtectionStatus, SessionUdpStats,
};
use rstorrent_engine::storage_file_pool::{
    is_descriptor_exhaustion, update_high_water, PlatformStorageFailure,
    PlatformStorageFailureKind, StorageFileAccess, StorageFilePoolError, StorageObjectKind,
    StorageObservation, ERR_KIND_DISAGREES, ERR_MISSING_HAS_FIELDS, ERR_NON_FILE_LENGTH,
    ERR_TOKEN_TOO_LONG,
};
use rstorrent_engine::storage_stage_profile::{
    deterministic_payload, greatest_common_divisor, ordered_index, permutation_multiplier,
    repeated_piece, WriteOrder,
};
use rstorrent_engine::tracker::{
    bounded_tracker_error, TrackerConfig, TrackerEndpoint, TrackerSchedule, TrackerSource,
    TrackerTransport, UdpTrackerUrl,
};
use rstorrent_engine::upload_scheduler::{
    UploadGrant, UploadPeerId, UploadScheduler, UploadSchedulerConfig, UploadSchedulerPeer,
};

#[test]
fn http_tracker_urls_need_a_host_no_fragment_and_an_http_scheme() {
    assert!(TrackerEndpoint::from_http_url("ftp://tracker.example/announce").is_none());
    assert!(TrackerEndpoint::from_http_url("http://tracker.example/announce#part").is_none());
    assert!(TrackerEndpoint::from_http_url("not a url").is_none());
    let https = TrackerEndpoint::from_http_url("https://tracker.example/announce")
        .expect("https tracker");
    assert_eq!(https.transport(), TrackerTransport::Https);
    let http = TrackerEndpoint::from_http_url("HTTP://Tracker.Example/announce").expect("http");
    assert_eq!(http.transport(), TrackerTransport::Http);
}

#[test]
fn tracker_labels_pad_to_six_digits_and_grow_past_them() {
    let configs = vec![TrackerConfig {
        url: "udp://wide.example:1".to_owned(),
        endpoint: TrackerEndpoint::Udp(UdpTrackerUrl {
            host: "wide.example".to_owned(),
            port: 1,
        }),
        tier: 1_234_567,
        position: 7,
        source: TrackerSource::Magnet,
    }];
    let schedule = TrackerSchedule::from_configs(configs);
    assert_eq!(schedule.snapshot(0, true).records[0].tracker_id, "1234567:000007");
}

#[test]
fn short_tracker_errors_are_kept_whole() {
    assert_eq!(bounded_tracker_error("timeout"), "timeout");
    let long = "a".repeat(300);
    assert_eq!(bounded_tracker_error(&long).len(), 256);
    let mixed = format!("{}é", "a".repeat(255));
    assert_eq!(bounded_tracker_error(&mixed), "a".repeat(255));
}

#[test]
fn observations_reject_each_inconsistency() {
    assert!(StorageObservation::missing().validate().is_ok());
    let kind_without_existence = StorageObservation {
        exists: false,
        kind: Some(StorageObjectKind::File),
        length: None,
        opaque_token: None,
    };
    assert!(matches!(
        kind_without_existence.validate(),
        Err(StorageFilePoolError::InvalidObservation(detail)) if detail == ERR_KIND_DISAGREES
    ));
    let missing_with_length = StorageObservation {
        exists: false,
        kind: None,
        length: Some(1),
        opaque_token: None,
    };
    assert!(matches!(
        missing_with_length.validate(),
        Err(StorageFilePoolError::InvalidObservation(detail)) if detail == ERR_MISSING_HAS_FIELDS
    ));
    assert!(matches!(
        StorageObservation::present(StorageObjectKind::Directory, Some(4), None),
        Err(StorageFilePoolError::InvalidObservation(detail)) if detail == ERR_NON_FILE_LENGTH
    ));
    assert!(matches!(
        StorageObservation::present(StorageObjectKind::File, Some(4), Some("t".repeat(257))),
        Err(StorageFilePoolError::InvalidObservation(detail)) if detail == ERR_TOKEN_TOO_LONG
    ));
    let present =
        StorageObservation::present(StorageObjectKind::File, Some(4), Some("t".repeat(256)))
            .expect("valid observation");
    assert!(present.exists);
    assert_eq!(present.length, Some(4));
}

#[test]
fn access_modes_and_failure_kinds_classify_exactly() {
    assert!(!StorageFileAccess::ReadExisting.writable());
    assert!(StorageFileAccess::ReadWriteCreate.creates());
    assert!(!StorageFileAccess::ReadWriteExisting.creates());
    assert!(StorageFileAccess::ReadWriteExisting.satisfies(StorageFileAccess::ReadWriteCreate));
    assert!(!StorageFileAccess::ReadExisting.satisfies(StorageFileAccess::ReadWriteExisting));
    assert!(StorageFileAccess::ReadExisting.satisfies(StorageFileAccess::ReadExisting));

    assert_eq!(
        StorageFilePoolError::PlatformUnavailable.platform_failure_kind(),
        Some(PlatformStorageFailureKind::Cancelled)
    );
    let failure = PlatformStorageFailure::new(PlatformStorageFailureKind::Missing, "x".repeat(2_000));
    assert_eq!(failure.detail.len(), 1_024);
    assert_eq!(
        StorageFilePoolError::PlatformFailure(failure).platform_failure_kind(),
        Some(PlatformStorageFailureKind::Missing)
    );
    assert_eq!(StorageFilePoolError::Closed.platform_failure_kind(), None);
    let short = PlatformStorageFailure::new(PlatformStorageFailureKind::Internal, "short".to_owned());
    assert_eq!(short.detail, "short");

    let exhausted = StorageFilePoolError::Io {
        operation: "open",
        raw_os_error: Some(24),
    };
    assert!(is_descriptor_exhaustion(&exhausted));
    let other = StorageFilePoolError::Io {
        operation: "open",
        raw_os_error: Some(2),
    };
    assert!(!is_descriptor_exhaustion(&other));
    let mut high_water = 3;
    update_high_water(&mut high_water, 2);
    assert_eq!(high_water, 3);
    update_high_water(&mut high_water, 9);
    assert_eq!(high_water, 9);
}

#[test]
fn reservations_are_all_or_nothing_and_releases_exact() {
    let mut counter = 10;
    let mut high_water = 10;
    assert_eq!(try_reserve(&mut counter, &mut high_water, 16, 6), Some(()));
    assert_eq!((counter, high_water), (16, 16));
    assert_eq!(try_reserve(&mut counter, &mut high_water, 16, 1), None);
    assert_eq!((counter, high_water), (16, 16));
    let mut huge = usize::MAX;
    let mut huge_high = usize::MAX;
    assert_eq!(try_reserve(&mut huge, &mut huge_high, usize::MAX, 1), None);
    checked_release(&mut counter, 6);
    assert_eq!(counter, 10);
    assert_eq!(load(&counter), 10);
    assert_eq!(high_water, 16);
}

fn waiter(ticket: u64, torrent: &str, root: &str) -> ExecutionWaiter {
    ExecutionWaiter {
        ticket,
        torrent_key: torrent.to_owned(),
        storage_root: root.to_owned(),
    }
}

#[test]
fn fair_grants_rotate_roots_then_torrents() {
    let empty = FairExecutionState {
        next_ticket: 0,
        active: 0,
        roots: Vec::new(),
        waiters: Vec::new(),
        last_granted_root: None,
        last_granted_torrent_by_root: Vec::new(),
    };
    assert_eq!(selected_waiter(&empty), None);

    let state = FairExecutionState {
        next_ticket: 3,
        active: 0,
        roots: Vec::new(),
        waiters: vec![
            waiter(1, "t1", "a"),
            waiter(2, "t2", "a"),
            waiter(3, "t3", "b"),
        ],
        last_granted_root: Some("a".to_owned()),
        last_granted_torrent_by_root: Vec::new(),
    };
    assert_eq!(selected_waiter(&state), Some(3));

    let same_root = FairExecutionState {
        next_ticket: 2,
        active: 0,
        roots: Vec::new(),
        waiters: vec![waiter(1, "t1", "a"), waiter(2, "t2", "a")],
        last_granted_root: Some("a".to_owned()),
        last_granted_torrent_by_root: vec![RootGrant {
            storage_root: "a".to_owned(),
            torrent_key: "t1".to_owned(),
        }],
    };
    assert_eq!(selected_waiter(&same_root), Some(2));

    let only_last = FairExecutionState {
        next_ticket: 5,
        active: 0,
        roots: Vec::new(),
        waiters: vec![waiter(5, "t1", "a")],
        last_granted_root: Some("a".to_owned()),
        last_granted_torrent_by_root: vec![RootGrant {
            storage_root: "a".to_owned(),
            torrent_key: "t1".to_owned(),
        }],
    };
    assert_eq!(selected_waiter(&only_last), Some(5));
}

#[test]
fn udp_counters_track_waiters_and_snapshots_copy_them() {
    let mut stats = SessionUdpStats::default();
    stats.record_egress_waiter_started();
    stats.record_egress_waiter_started();
    stats.record_egress_waiter_finished();
    assert_eq!(stats.egress_waiters, 1);
    assert_eq!(stats.egress_waiter_high_water, 2);
    stats.record_dht_drop();
    stats.record_utp_drop();
    stats.record_utp_datagram(100);
    stats.record_protected_send_sent(700);
    stats.record_datagram_sent(300);
    let snapshot = stats.snapshot(3, 4, Ipv4FragmentationProtectionStatus::Verified);
    assert_eq!(snapshot.datagrams_dropped, 2);
    assert_eq!(snapshot.dht_datagrams_dropped, 1);
    assert_eq!(snapshot.utp_datagrams_dropped, 1);
    assert_eq!(snapshot.utp_datagram_bytes_classified, 100);
    assert_eq!(snapshot.protected_sends_sent, 1);
    assert_eq!(snapshot.maximum_datagram_bytes_sent, 700);
    assert_eq!(snapshot.queued, 3);
    assert_eq!(snapshot.utp_queued, 4);
    assert_eq!(
        snapshot.ipv4_fragmentation_protection,
        Ipv4FragmentationProtectionStatus::Verified
    );
    let mut value = u64::MAX - 3;
    saturating_add(&mut value, 2);
    assert_eq!(value, u64::MAX - 1);
    saturating_add(&mut value, 2);
    assert_eq!(value, u64::MAX);
}

#[test]
fn permutation_helpers_compute_exact_values() {
    assert_eq!(greatest_common_divisor(12, 18), 6);
    assert_eq!(greatest_common_divisor(7, 0), 7);
    assert_eq!(permutation_multiplier(10), 7);
    assert_eq!(permutation_multiplier(0), 1);
    assert_eq!(permutation_multiplier(u64::MAX), 1 << 63);
    assert_eq!(ordered_index(3, 10, WriteOrder::Permuted, 7), (3 * 7 + 3) % 10);
    assert_eq!(WriteOrder::Permuted.as_str(), "permuted");
    assert_eq!(WriteOrder::Sequential.as_str(), "sequential");
    let payload = deterministic_payload(3);
    assert_eq!(payload, vec![0xa5, 73 ^ 0xa5, (146 ^ 0xa5) as u8]);
    let piece = repeated_piece(&[1, 2, 3], 7);
    assert_eq!(piece, vec![1, 2, 3, 1, 2, 3, 1, 2, 3]);
    assert!(repeated_piece(&[], 0).is_empty());
}

#[test]
fn regular_grants_never_exceed_the_regular_slots() {
    let mut scheduler = UploadScheduler::new(UploadSchedulerConfig {
        slots: 3,
        ..UploadSchedulerConfig::default()
    })
    .expect("valid config");
    for value in 1..=12_u64 {
        scheduler.update_peer(
            UploadSchedulerPeer {
                id: UploadPeerId::new(value).expect("nonzero"),
                torrent: [1; 20],
                piece_length: 16_384,
                interested: true,
                payload_uploaded: value * 1_000,
            },
            0,
        );
    }
    for step in 0..5_u64 {
        scheduler.evaluate(step * 15_000);
        let snapshot = scheduler.snapshot();
        assert!(snapshot.regular <= 2);
        assert!(snapshot.optimistic <= 1);
    }
    assert_eq!(scheduler.grant(UploadPeerId::new(99).expect("nonzero")), None);
    let _ = UploadGrant::Choked;
}
