use rstorrent_engine::upload_scheduler::{
    automatic_optimistic_slots, UploadGrant, UploadPeerId, UploadScheduler, UploadSchedulerConfig,
    UploadSchedulerPeer, DEFAULT_OPTIMISTIC_UNCHOKE_INTERVAL, DEFAULT_SEEDING_PIECE_QUOTA,
    DEFAULT_UNCHOKE_INTERVAL, DEFAULT_UNCHOKE_SLOTS,
};

/// Times are whole milliseconds.
fn secs(value: u64) -> u64 {
    value * 1_000
}

fn id(value: u64) -> UploadPeerId {
    UploadPeerId::new(value).expect("nonzero peer id")
}

fn peer(value: u64, uploaded: u64) -> UploadSchedulerPeer {
    UploadSchedulerPeer {
        id: id(value),
        torrent: [value as u8; 20],
        piece_length: 16_384,
        interested: true,
        payload_uploaded: uploaded,
    }
}

#[test]
fn defaults_match_pinned_libtorrent() {
    let config = UploadSchedulerConfig::default();
    assert_eq!(config.slots, DEFAULT_UNCHOKE_SLOTS);
    assert_eq!(config.unchoke_interval, DEFAULT_UNCHOKE_INTERVAL);
    assert_eq!(
        config.optimistic_interval,
        DEFAULT_OPTIMISTIC_UNCHOKE_INTERVAL
    );
    assert_eq!(config.seeding_piece_quota, DEFAULT_SEEDING_PIECE_QUOTA);
    assert_eq!(automatic_optimistic_slots(8), 1);
    assert_eq!(automatic_optimistic_slots(10), 2);
    assert_eq!(automatic_optimistic_slots(0), 0);
}

#[test]
fn eight_slots_include_one_optimistic_and_only_interested_peers() {
    let mut scheduler = UploadScheduler::default();
    for value in 1..=10 {
        let mut input = peer(value, 0);
        input.interested = value != 10;
        scheduler.update_peer(input, 0);
    }
    scheduler.evaluate(0);
    let snapshot = scheduler.snapshot();
    assert_eq!(snapshot.interested, 9);
    assert_eq!(snapshot.regular, 7);
    assert_eq!(snapshot.optimistic, 1);
    assert_eq!(scheduler.grant(id(10)), Some(UploadGrant::Choked));
}

#[test]
fn vacancies_fill_before_the_periodic_interval() {
    let mut scheduler = UploadScheduler::new(UploadSchedulerConfig {
        slots: 2,
        ..UploadSchedulerConfig::default()
    })
    .expect("valid config");
    scheduler.update_peer(peer(1, 0), 0);
    scheduler.evaluate(0);
    scheduler.update_peer(peer(2, 0), secs(1));
    scheduler.evaluate(secs(1));
    assert_eq!(scheduler.snapshot().regular, 1);
    assert_eq!(scheduler.snapshot().optimistic, 1);
}

#[test]
fn optimistic_peer_rotates_at_thirty_seconds() {
    let mut scheduler = UploadScheduler::new(UploadSchedulerConfig {
        slots: 1,
        ..UploadSchedulerConfig::default()
    })
    .expect("valid config");
    for value in 1..=3 {
        scheduler.update_peer(peer(value, 0), 0);
    }
    scheduler.evaluate(0);
    assert_eq!(scheduler.grant(id(1)), Some(UploadGrant::Optimistic));
    scheduler.evaluate(secs(29));
    assert_eq!(scheduler.grant(id(1)), Some(UploadGrant::Optimistic));
    scheduler.evaluate(secs(30));
    assert_eq!(scheduler.grant(id(2)), Some(UploadGrant::Optimistic));
    scheduler.evaluate(secs(60));
    assert_eq!(scheduler.grant(id(3)), Some(UploadGrant::Optimistic));
}

#[test]
fn seed_quota_requires_strict_bytes_and_time_boundaries() {
    let mut scheduler = UploadScheduler::new(UploadSchedulerConfig {
        slots: 2,
        ..UploadSchedulerConfig::default()
    })
    .expect("valid config");
    scheduler.update_peer(peer(1, 0), 0);
    scheduler.update_peer(peer(2, 0), 0);
    scheduler.update_peer(peer(3, 0), 0);
    scheduler.evaluate(0);
    assert_eq!(scheduler.grant(id(1)), Some(UploadGrant::Regular));

    let exact_quota = 16_384 * DEFAULT_SEEDING_PIECE_QUOTA;
    scheduler.update_peer(peer(1, exact_quota), secs(60));
    scheduler.evaluate(secs(60));
    assert_eq!(scheduler.grant(id(1)), Some(UploadGrant::Regular));

    scheduler.update_peer(peer(1, exact_quota + 1), secs(61));
    scheduler.evaluate(secs(75));
    assert_eq!(scheduler.grant(id(1)), Some(UploadGrant::Choked));
    assert_eq!(scheduler.snapshot().regular, 1);
}

#[test]
fn zero_slots_chokes_every_peer() {
    let mut scheduler = UploadScheduler::new(UploadSchedulerConfig {
        slots: 1,
        ..UploadSchedulerConfig::default()
    })
    .expect("valid config");
    scheduler.update_peer(peer(1, 0), 0);
    scheduler.evaluate(0);
    assert_eq!(scheduler.grant(id(1)), Some(UploadGrant::Optimistic));

    scheduler.config.slots = 0;
    let decisions = scheduler.evaluate(secs(1));
    assert_eq!(decisions.len(), 1);
    assert_eq!(scheduler.grant(id(1)), Some(UploadGrant::Choked));
}
