use rstorrent_engine::tracker::{
    tracker_failure_delay, AnnounceEvent, TrackerAction, TrackerAnnounceEvent, TrackerConfig,
    TrackerEndpoint, TrackerId, TrackerNextAction, TrackerRuntimeStatus, TrackerSchedule,
    TrackerSource, TrackerTransport, TrackerWaitKind, UdpTrackerUrl, MAX_TRACKER_ERROR_LENGTH,
    TRACKER_ANNOUNCE_MAX, TRACKER_ANNOUNCE_MIN, TRACKER_RETRY_MAX,
};

/// Times are whole milliseconds.
fn secs(value: u64) -> u64 {
    value * 1_000
}

fn tracker(name: &str, port: u16) -> UdpTrackerUrl {
    UdpTrackerUrl {
        host: name.to_owned(),
        port,
    }
}

fn tracker_label(tracker: &UdpTrackerUrl) -> String {
    if tracker.host.contains(':') {
        format!("udp://[{}]:{}", tracker.host, tracker.port)
    } else {
        format!("udp://{}:{}", tracker.host, tracker.port)
    }
}

/// A magnet schedule over UDP trackers, in order, all in tier zero.
fn schedule_of(urls: Vec<UdpTrackerUrl>) -> TrackerSchedule {
    let configs = urls
        .into_iter()
        .enumerate()
        .map(|(position, endpoint)| TrackerConfig {
            url: tracker_label(&endpoint),
            endpoint: TrackerEndpoint::Udp(endpoint),
            tier: 0,
            position: position.try_into().unwrap_or(u32::MAX),
            source: TrackerSource::Magnet,
        })
        .collect();
    TrackerSchedule::from_configs(configs)
}

fn announce(schedule: &mut TrackerSchedule, now: u64) -> TrackerId {
    let TrackerAction::Announce { id, .. } = schedule.next_action(now) else {
        panic!("tracker should be eligible");
    };
    id
}

#[test]
fn configured_schedule_preserves_large_tiers_without_u8_truncation() {
    let configs = (0_u32..300)
        .map(|position| {
            let endpoint = tracker(
                &format!("tracker-{position}.example"),
                u16::try_from(1_000 + position).expect("fixture port"),
            );
            TrackerConfig {
                url: format!("udp://tracker-{position}.example:{}", 1_000 + position),
                endpoint: TrackerEndpoint::Udp(endpoint),
                tier: position / 100,
                position: position % 100,
                source: TrackerSource::Metainfo,
            }
        })
        .collect();
    let schedule = TrackerSchedule::from_configs(configs);
    let snapshot = schedule.snapshot(0, false);

    assert_eq!(snapshot.records.len(), 300);
    assert_eq!(snapshot.records[299].tier, 2);
    assert_eq!(snapshot.records[299].source, TrackerSource::Metainfo);
    assert_eq!(snapshot.records[299].tracker_id, "000002:000099");
}

#[test]
fn mixed_transport_schedule_preserves_endpoint_and_projection() {
    let configs = vec![
        TrackerConfig {
            url: "udp://tracker.example:6969".to_owned(),
            endpoint: TrackerEndpoint::Udp(tracker("tracker.example", 6969)),
            tier: 0,
            position: 0,
            source: TrackerSource::Metainfo,
        },
        TrackerConfig {
            url: "http://tracker.example/announce?passkey=abc".to_owned(),
            endpoint: TrackerEndpoint::from_http_url("http://tracker.example/announce?passkey=abc")
                .expect("HTTP tracker URL"),
            tier: 0,
            position: 1,
            source: TrackerSource::Metainfo,
        },
        TrackerConfig {
            url: "https://tracker.example/announce".to_owned(),
            endpoint: TrackerEndpoint::from_http_url("https://tracker.example/announce")
                .expect("HTTPS tracker URL"),
            tier: 1,
            position: 0,
            source: TrackerSource::Magnet,
        },
    ];
    let mut schedule = TrackerSchedule::from_configs(configs);
    let snapshot = schedule.snapshot(0, false);
    assert_eq!(
        snapshot
            .records
            .iter()
            .map(|record| record.transport)
            .collect::<Vec<_>>(),
        [
            TrackerTransport::Udp,
            TrackerTransport::Http,
            TrackerTransport::Https,
        ]
    );

    let first = announce(&mut schedule, 0);
    schedule.failed(first, 0, "UDP unavailable");
    let TrackerAction::Announce { url, endpoint, .. } = schedule.next_action(0) else {
        panic!("HTTP fallback should be eligible");
    };
    assert_eq!(url, "http://tracker.example/announce?passkey=abc");
    assert_eq!(endpoint.transport(), TrackerTransport::Http);
}

#[test]
fn failure_backoff_is_quadratic_saturating_and_unlimited() {
    assert_eq!(tracker_failure_delay(1), secs(17));
    assert_eq!(tracker_failure_delay(2), secs(55));
    assert_eq!(tracker_failure_delay(3), secs(117));
    assert_eq!(tracker_failure_delay(4), secs(205));
    assert_eq!(tracker_failure_delay(127), TRACKER_RETRY_MAX);

    let mut schedule = schedule_of(vec![tracker("tracker.example", 80)]);
    let mut now = 0;
    for _ in 0..140 {
        let id = announce(&mut schedule, now);
        let failure = schedule.failed(id, now, "timeout");
        now += failure.retry_in;
    }
    assert_eq!(schedule.failures_at(0), Some(127));
    assert!(matches!(
        schedule.next_action(now),
        TrackerAction::Announce { .. }
    ));
}

#[test]
fn failure_falls_through_and_success_promotes_the_tracker() {
    let first = tracker("first.example", 80);
    let second = tracker("second.example", 81);
    let mut schedule = schedule_of(vec![first.clone(), second.clone()]);

    let TrackerAction::Announce {
        id: first_id,
        endpoint,
        event,
        fallback,
        ..
    } = schedule.next_action(0)
    else {
        panic!("first tracker should be eligible");
    };
    assert_eq!(endpoint, TrackerEndpoint::Udp(first));
    assert_eq!(event, AnnounceEvent::Started);
    assert!(!fallback);
    schedule.failed(first_id, 0, "first unavailable");

    let TrackerAction::Announce {
        id: second_id,
        endpoint,
        event,
        fallback,
        ..
    } = schedule.next_action(0)
    else {
        panic!("second tracker should be the fallback");
    };
    assert_eq!(endpoint, TrackerEndpoint::Udp(second.clone()));
    assert_eq!(event, AnnounceEvent::Started);
    assert!(fallback);
    let success = schedule.succeeded(second_id, 0, 1, 12, 7, 5);
    assert_eq!(success.interval, TRACKER_ANNOUNCE_MIN);

    assert_eq!(
        schedule.next_action(TRACKER_ANNOUNCE_MIN - secs(1)),
        TrackerAction::Wait {
            delay: secs(1),
            url: "udp://second.example:81".to_owned(),
            endpoint: TrackerEndpoint::Udp(second.clone()),
            kind: TrackerWaitKind::Reannounce,
        }
    );
    assert!(matches!(
        schedule.next_action(TRACKER_ANNOUNCE_MIN),
        TrackerAction::Announce {
            endpoint,
            event: AnnounceEvent::NoEvent,
            fallback: false,
            ..
        } if endpoint == TrackerEndpoint::Udp(second)
    ));
}

#[test]
fn concurrent_round_does_not_reselect_inflight_trackers() {
    let mut schedule = schedule_of(vec![
        tracker("first.example", 80),
        tracker("second.example", 81),
    ]);
    let first = announce(&mut schedule, 0);
    let second = announce(&mut schedule, 0);
    assert_eq!(schedule.next_action(0), TrackerAction::Pending);

    schedule.failed(first, 0, "first timeout");
    assert_eq!(schedule.next_action(0), TrackerAction::Pending);
    schedule.failed(second, 0, "second timeout");
    assert!(matches!(
        schedule.next_action(0),
        TrackerAction::Wait {
            kind: TrackerWaitKind::FailureRetry,
            ..
        }
    ));
}

#[test]
fn successful_intervals_are_bounded() {
    let mut schedule = schedule_of(vec![tracker("tracker.example", 80)]);
    let id = announce(&mut schedule, 0);
    assert_eq!(
        schedule.succeeded(id, 0, 0, 0, 0, 0).interval,
        TRACKER_ANNOUNCE_MIN
    );

    let id = announce(&mut schedule, TRACKER_ANNOUNCE_MIN);
    assert_eq!(
        schedule
            .succeeded(id, TRACKER_ANNOUNCE_MIN, u32::MAX, 0, 0, 0)
            .interval,
        TRACKER_ANNOUNCE_MAX
    );
}

#[test]
fn a_successful_round_waits_instead_of_hammering_backups() {
    let first = tracker("first.example", 80);
    let second = tracker("second.example", 81);
    let mut schedule = schedule_of(vec![first.clone(), second]);
    let id = announce(&mut schedule, 0);
    schedule.succeeded(id, 0, 600, 0, 0, 0);

    assert_eq!(
        schedule.next_action(secs(10)),
        TrackerAction::Wait {
            delay: secs(590),
            url: "udp://first.example:80".to_owned(),
            endpoint: TrackerEndpoint::Udp(first),
            kind: TrackerWaitKind::Reannounce,
        }
    );
}

#[test]
fn retry_wait_names_the_earliest_eligible_tracker() {
    let slow = tracker("slow.example", 80);
    let fast = tracker("fast.example", 81);
    let mut schedule = schedule_of(vec![slow, fast.clone()]);
    let slow_id = announce(&mut schedule, 0);
    for _ in 0..5 {
        schedule.failed(slow_id, 0, "slow tracker");
    }
    let fast_id = announce(&mut schedule, 0);
    schedule.failed(fast_id, 0, "fast tracker");

    assert_eq!(
        schedule.next_action(0),
        TrackerAction::Wait {
            delay: secs(17),
            url: "udp://fast.example:81".to_owned(),
            endpoint: TrackerEndpoint::Udp(fast),
            kind: TrackerWaitKind::FailureRetry,
        }
    );
}

#[test]
fn snapshots_retain_bounded_failure_and_accepted_response_state() {
    let first = tracker("first.example", 80);
    let second = tracker("second.example", 81);
    let mut schedule = schedule_of(vec![first, second]);

    let initial = schedule.snapshot(0, false);
    assert_eq!(initial.records[0].status, TrackerRuntimeStatus::Inactive);
    assert_eq!(initial.records[0].next_action, None);
    assert_eq!(initial.records[0].interval, None);

    let first_id = announce(&mut schedule, secs(1));
    let announcing = schedule.snapshot(secs(1), true);
    assert_eq!(
        announcing.records[0].status,
        TrackerRuntimeStatus::Announcing
    );
    assert_eq!(
        announcing.records[0].announce_event,
        Some(TrackerAnnounceEvent::Started)
    );

    let long_error = "é".repeat(MAX_TRACKER_ERROR_LENGTH);
    schedule.failed(first_id, secs(2), &long_error);
    let failed = schedule.snapshot(secs(3), true);
    assert_eq!(failed.records[0].status, TrackerRuntimeStatus::RetryWait);
    assert_eq!(failed.records[0].next_action, Some(TrackerNextAction::Retry));
    assert_eq!(failed.records[0].next_action_in, Some(secs(16)));
    assert_eq!(failed.records[0].last_failure_age, Some(secs(1)));
    assert_eq!(
        failed.records[0].last_error.as_ref().map(String::len),
        Some(MAX_TRACKER_ERROR_LENGTH)
    );

    let second_id = announce(&mut schedule, secs(3));
    schedule.succeeded(second_id, secs(4), 600, 23, 11, 12);
    let succeeded = schedule.snapshot(secs(9), true);
    let record = &succeeded.records[0];
    assert_eq!(record.url, "udp://second.example:81");
    assert_eq!(record.status, TrackerRuntimeStatus::ReannounceWait);
    assert_eq!(record.next_action, Some(TrackerNextAction::Reannounce));
    assert_eq!(record.next_action_in, Some(secs(595)));
    assert_eq!(record.last_success_age, Some(secs(5)));
    assert_eq!(record.last_peer_count, Some(23));
    assert_eq!(record.seeders, Some(11));
    assert_eq!(record.leechers, Some(12));
    assert_eq!(record.interval, Some(secs(600)));
    assert_eq!(record.last_error, None);

    let update_id = announce(&mut schedule, secs(604));
    assert_eq!(update_id, second_id);
    let updating = schedule.snapshot(secs(604), true);
    assert_eq!(
        updating.records[0].announce_event,
        Some(TrackerAnnounceEvent::Update)
    );
}

#[test]
fn terminal_snapshot_clears_inflight_state_without_losing_history() {
    let mut schedule = schedule_of(vec![tracker("tracker.example", 80)]);
    let id = announce(&mut schedule, 0);
    schedule.succeeded(id, secs(1), 900, 4, 3, 1);
    let _ = announce(&mut schedule, secs(901));

    let terminal = schedule.snapshot(secs(902), false);
    assert!(!terminal.active);
    assert_eq!(terminal.records[0].status, TrackerRuntimeStatus::Inactive);
    assert_eq!(terminal.records[0].announce_event, None);
    assert_eq!(terminal.records[0].next_action, None);
    assert_eq!(terminal.records[0].last_peer_count, Some(4));
}

#[test]
fn lifecycle_priorities_order_completed_correction_and_stopped() {
    let mut schedule = schedule_of(vec![tracker("tracker.example", 80)]);
    let started = announce(&mut schedule, 0);
    schedule.succeeded(started, secs(1), 900, 0, 0, 0);

    schedule.request_completed();
    let TrackerAction::Announce {
        id,
        event: AnnounceEvent::Completed,
        ..
    } = schedule.next_action(secs(2))
    else {
        panic!("completion transition must preempt the interval");
    };
    schedule.succeeded(id, secs(3), 900, 0, 0, 0);

    schedule.request_update();
    let TrackerAction::Announce {
        id,
        event: AnnounceEvent::NoEvent,
        ..
    } = schedule.next_action(secs(4))
    else {
        panic!("endpoint correction must preempt the interval");
    };
    schedule.succeeded(id, secs(5), 900, 0, 0, 0);

    schedule.request_stop();
    let TrackerAction::Announce {
        id,
        event: AnnounceEvent::Stopped,
        ..
    } = schedule.next_action(secs(6))
    else {
        panic!("stopped must supersede periodic work");
    };
    schedule.succeeded(id, secs(7), 900, 0, 0, 0);
    assert_eq!(schedule.next_action(secs(8)), TrackerAction::Exhausted);
}

#[test]
fn correction_requested_during_started_is_not_lost() {
    let mut schedule = schedule_of(vec![tracker("tracker.example", 80)]);
    let started = announce(&mut schedule, 0);
    schedule.request_update();
    schedule.succeeded(started, secs(1), 900, 0, 0, 0);

    assert!(matches!(
        schedule.next_action(secs(2)),
        TrackerAction::Announce {
            event: AnnounceEvent::NoEvent,
            ..
        }
    ));
}

#[test]
fn imported_complete_start_does_not_fabricate_completed() {
    let mut schedule = schedule_of(vec![tracker("tracker.example", 80)]);
    schedule.request_completed();
    assert!(matches!(
        schedule.next_action(0),
        TrackerAction::Announce {
            event: AnnounceEvent::Started,
            ..
        }
    ));
}

#[test]
fn stopped_is_only_due_after_a_successful_start() {
    let mut schedule = schedule_of(vec![tracker("tracker.example", 80)]);
    schedule.request_stop();
    assert_eq!(schedule.next_action(0), TrackerAction::Exhausted);
}
