use rstorrent_engine::request_window::{rate_target, RequestWindow, RequestWindowPhase};
use std::collections::BTreeSet;
use rstorrent_engine::storage_join::{PieceStorageJoin, PieceStorageOutcome};
use rstorrent_engine::swarm::{ConnectionWindowPhaseSnapshot, SwarmState};
use rstorrent_engine::swarm_types::{
    BlockKey, BlockStatus, FastPeerSnapshot, PeerMessage, PieceActivationPolicy,
    DEFAULT_MAX_REQUESTS_PER_CONNECTION, MAX_FAST_ADVISORY_PIECES, RequestCancellation, DEFAULT_REQUEST_TIMEOUT, ConnectionId, ConnectionRemoval, NoRequestReason, PendingDialId,
    PieceGeneration, PiecePlan, ReceiveDisposition, RejectDisposition, RequestDisposition,
    SwarmConfig, SwarmError, DEFAULT_INITIAL_REQUESTS_PER_CONNECTION,
    DEFAULT_MAX_ESTABLISHED_CONNECTIONS, DEFAULT_MAX_PENDING_DIALS,
    DEFAULT_MAX_TERMINAL_ATTEMPTS_PER_BLOCK, MAX_REQUEST_BLOCK_LENGTH,
    MIN_HEALTHY_REQUESTS_PER_CONNECTION,
};

const BLOCK: u32 = MAX_REQUEST_BLOCK_LENGTH;

/// Times are whole milliseconds.
fn secs(value: u64) -> u64 {
    value * 1_000
}

fn connection(value: u64) -> ConnectionId {
    ConnectionId::new(value).expect("nonzero connection")
}

fn dial(value: u64) -> PendingDialId {
    PendingDialId::new(value).expect("nonzero dial")
}

fn plan(piece: u32, blocks: usize) -> PiecePlan {
    PiecePlan::new(
        piece,
        &(0..blocks)
            .map(|index| (u32::try_from(index).expect("small index") * BLOCK, BLOCK))
            .collect::<Vec<_>>(),
    )
    .expect("piece plan")
}

fn state(piece_count: usize, plans: Vec<PiecePlan>, payload_blocks: usize) -> SwarmState {
    let mut config = SwarmConfig::for_request_limit(payload_blocks * BLOCK as usize);
    config.request_timeout = secs(30);
    config.unproductive_grace = secs(30);
    SwarmState::new(config, piece_count, plans).expect("swarm state")
}

fn add_peer(state: &mut SwarmState, id: ConnectionId, pieces: &[usize], choking: bool) {
    state.add_connection(id, 0).expect("peer");
    let mut availability = vec![false; state.piece_count()];
    for &piece in pieces {
        availability[piece] = true;
    }
    state.set_bitfield(id, availability).expect("bitfield");
    state.set_choking(id, choking).expect("choke state");
}

#[test]
fn piece_storage_join_is_generation_safe_in_every_completion_order() {
    let generation = PieceGeneration::new(1).expect("initial generation");

    let mut hash_first = PieceStorageJoin::new(2);
    hash_first.begin_hash(generation).expect("begin early hash");
    assert_eq!(
        hash_first
            .hash_completed(generation, true)
            .expect("complete hash"),
        PieceStorageOutcome::Pending
    );
    assert_eq!(
        hash_first
            .write_completed(generation, true)
            .expect("first write"),
        PieceStorageOutcome::Pending
    );
    assert_eq!(
        hash_first
            .write_completed(generation, true)
            .expect("second write"),
        PieceStorageOutcome::Verified
    );

    let mut write_failure = PieceStorageJoin::new(2);
    write_failure
        .begin_hash(generation)
        .expect("begin failure join hash");
    write_failure
        .hash_completed(generation, true)
        .expect("hash passes");
    write_failure
        .write_completed(generation, false)
        .expect("failed write");
    assert_eq!(
        write_failure
            .write_completed(generation, true)
            .expect("joined write"),
        PieceStorageOutcome::Failed
    );

    let mut hash_failure = PieceStorageJoin::new(1);
    hash_failure
        .begin_hash(generation)
        .expect("begin failed hash");
    assert_eq!(
        hash_failure
            .hash_completed(generation, false)
            .expect("failed hash"),
        PieceStorageOutcome::Pending
    );
    assert_eq!(
        hash_failure
            .write_completed(generation, true)
            .expect("join final write"),
        PieceStorageOutcome::Failed
    );

    hash_failure.reset().expect("new generation");
    let replacement = PieceGeneration::new(2).expect("replacement generation");
    assert_eq!(hash_failure.generation, replacement);
    assert!(matches!(
        hash_failure.write_completed(generation, true),
        Err(SwarmError::StalePieceGeneration {
            expected,
            actual,
        }) if expected == replacement && actual == generation
    ));
    hash_failure
        .write_completed(replacement, true)
        .expect("replacement write");
    assert!(matches!(
        hash_failure.write_completed(replacement, true),
        Err(SwarmError::Invariant(_))
    ));

    let mut overflow = PieceStorageJoin::new(1);
    overflow.generation = PieceGeneration::new(u64::MAX).expect("last generation");
    assert_eq!(
        overflow.reset(),
        Err(SwarmError::IdentifierOverflow("piece generation"))
    );
}

#[test]
fn validates_plans_configuration_and_pending_dial_capacity() {
    assert!(matches!(
        PiecePlan::new(0, &[]),
        Err(SwarmError::EmptyPiecePlan(0))
    ));
    assert!(matches!(
        PiecePlan::new(0, &[(0, BLOCK), (BLOCK - 1, BLOCK)]),
        Err(SwarmError::OverlappingBlocks(0))
    ));
    let mut state = state(1, vec![plan(0, 1)], 1);
    for value in 1..=DEFAULT_MAX_PENDING_DIALS as u64 {
        state.begin_dial(dial(value)).expect("dial slot");
    }
    let overflow = DEFAULT_MAX_PENDING_DIALS as u64 + 1;
    assert_eq!(
        state.begin_dial(dial(overflow)),
        Err(SwarmError::PendingDialCapacity)
    );
    state.finish_dial(dial(1)).expect("finish dial");
    state.begin_dial(dial(overflow)).expect("reused dial slot");
    assert_eq!(state.snapshot(0).pending_dials, 30);
}

#[test]
fn connection_activity_exposes_bounded_queue_and_utility_state() {
    let mut state = state(1, vec![plan(0, 2)], 2);
    add_peer(&mut state, connection(1), &[0], false);
    add_peer(&mut state, connection(2), &[], true);
    let assignments = state.schedule(0).expect("schedule");
    assert_eq!(assignments.len(), 2);
    assert!(matches!(
        state
            .receive_block(assignments[0].connection, assignments[0].block, 100)
            .expect("payload"),
        ReceiveDisposition::Accept { .. }
    ));
    state
        .finish_write(assignments[0].block, true, 100)
        .expect("write");

    let activity = state.connection_activity(secs(1));
    assert_eq!(activity.len(), 2);
    assert_eq!(activity[0].id, connection(1));
    assert!(!activity[0].choking);
    assert_eq!(activity[0].wanted_piece_count, 1);
    assert_eq!(activity[0].pending_requests, 1);
    assert_eq!(activity[0].target_requests, 5);
    assert_eq!(activity[0].queued_payload_bytes, BLOCK as usize);
    assert_eq!(
        activity[0].window_phase,
        ConnectionWindowPhaseSnapshot::SlowStart
    );
    assert_eq!(activity[0].useful_payload_bytes, BLOCK as usize);
    assert_eq!(activity[0].last_useful_age, Some(900));
    assert_eq!(activity[0].last_payload_age, Some(900));
    assert_eq!(activity[0].request_timeout, secs(2));
    assert_eq!(activity[0].oldest_request_age, Some(secs(1)));
    assert_eq!(activity[1].wanted_piece_count, 0);
    assert_eq!(activity[1].pending_requests, 0);
}

#[test]
fn generous_request_allowance_fills_every_default_initial_peer_window() {
    let peer_count = DEFAULT_MAX_ESTABLISHED_CONNECTIONS;
    let block_count = peer_count * DEFAULT_INITIAL_REQUESTS_PER_CONNECTION;
    let config = SwarmConfig::for_request_limit(256 * 1024 * 1024);
    let mut state = SwarmState::new(config, 1, vec![plan(0, block_count)]).expect("swarm");
    for value in 1..=peer_count as u64 {
        add_peer(&mut state, connection(value), &[0], false);
    }

    let assignments = state.schedule(0).expect("schedule");

    assert_eq!(assignments.len(), block_count);
    for value in 1..=peer_count as u64 {
        assert_eq!(
            assignments
                .iter()
                .filter(|assignment| assignment.connection == connection(value))
                .count(),
            DEFAULT_INITIAL_REQUESTS_PER_CONNECTION
        );
    }
    let snapshot = state.snapshot(0);
    assert_eq!(
        snapshot.outstanding_request_bytes,
        block_count * BLOCK as usize
    );
    assert_eq!(
        snapshot.outstanding_request_high_water,
        snapshot.outstanding_request_bytes
    );
}

#[test]
fn active_piece_working_set_is_byte_bounded_and_refills_after_verification() {
    let mut config = SwarmConfig::for_request_limit(4 * BLOCK as usize);
    config.max_active_piece_bytes = 2 * BLOCK as usize;
    let mut state = SwarmState::new(config, 4, (0..4).map(|piece| plan(piece, 1)).collect())
        .expect("swarm");
    add_peer(&mut state, connection(1), &[0, 1, 2, 3], false);

    let initial = state.schedule(0).expect("initial schedule");
    assert_eq!(initial.len(), 2);
    let snapshot = state.snapshot(0);
    assert_eq!(snapshot.active_piece_count, 2);
    assert_eq!(snapshot.active_piece_bytes, 2 * BLOCK as usize);
    assert_eq!(
        snapshot.no_request_reason,
        Some(NoRequestReason::ActivePieceLimit)
    );

    state
        .receive_block(connection(1), initial[0].block, 0)
        .expect("payload");
    state
        .finish_write(initial[0].block, true, 0)
        .expect("write");
    state
        .mark_piece_verified(initial[0].block.piece)
        .expect("verify");
    let refill = state.schedule(1).expect("refill");
    assert_eq!(refill.len(), 1);
    let refilled = state.snapshot(1);
    assert_eq!(refilled.active_piece_count, 2);
    assert_eq!(refilled.active_piece_bytes, 2 * BLOCK as usize);
}

#[test]
fn one_piece_larger_than_the_working_set_limit_can_still_progress() {
    let mut config = SwarmConfig::for_request_limit(2 * BLOCK as usize);
    config.max_active_piece_bytes = BLOCK as usize;
    let mut state = SwarmState::new(config, 1, vec![plan(0, 2)]).expect("swarm");
    add_peer(&mut state, connection(1), &[0], false);

    let assignments = state.schedule(0).expect("schedule");

    assert_eq!(assignments.len(), 2);
    let snapshot = state.snapshot(0);
    assert_eq!(snapshot.active_piece_count, 1);
    assert_eq!(snapshot.active_piece_bytes, 2 * BLOCK as usize);
}

#[test]
fn useful_payload_grows_and_refills_only_the_responding_peer_window() {
    let mut state = state(1, vec![plan(0, 32)], 32);
    for id in [connection(1), connection(2)] {
        add_peer(&mut state, id, &[0], false);
    }
    let initial = state.schedule(0).expect("initial schedule");
    assert_eq!(initial.len(), 2 * DEFAULT_INITIAL_REQUESTS_PER_CONNECTION);
    assert_eq!(
        initial
            .iter()
            .filter(|request| request.connection == connection(1))
            .count(),
        DEFAULT_INITIAL_REQUESTS_PER_CONNECTION
    );
    let response = initial
        .iter()
        .find(|request| request.connection == connection(1))
        .expect("peer one request");
    state
        .receive_block(response.connection, response.block, 100)
        .expect("useful payload");
    state
        .finish_write(response.block, true, 100)
        .expect("stored block");

    let refill = state.schedule(100).expect("refill schedule");
    assert_eq!(refill.len(), 2);
    assert!(refill
        .iter()
        .all(|request| request.connection == connection(1)));
    let snapshot = state.snapshot(100);
    assert_eq!(snapshot.request_target_total, 9);
    assert_eq!(snapshot.request_target_max, 5);
    assert_eq!(snapshot.slow_start_peers, 2);
    assert_eq!(snapshot.stalled_peers, 0);
    assert_eq!(snapshot.useful_payload_bytes, BLOCK as usize);
}

#[test]
fn useful_response_samples_bound_connection_inactivity_timeout() {
    let config = SwarmConfig::for_request_limit(16 * BLOCK as usize);
    let mut window = RequestWindow::new(0, config.initial_requests_per_connection);
    assert_eq!(window.request_timeout(config), DEFAULT_REQUEST_TIMEOUT);
    window.accepted_payload(100, BLOCK as usize, Some(0), config);
    assert_eq!(window.request_timeout(config), secs(2));
    window.accepted_payload(200, BLOCK as usize, Some(100), config);
    assert_eq!(window.request_timeout(config), secs(2));

    let mut short_config = config;
    short_config.request_timeout = 75;
    assert_eq!(window.request_timeout(short_config), 75);
}

#[test]
fn sampled_connection_stall_releases_its_whole_window() {
    let mut state = state(1, vec![plan(0, 16)], 16);
    add_peer(&mut state, connection(1), &[0], false);
    let initial = state.schedule(0).expect("initial");
    state
        .receive_block(initial[0].connection, initial[0].block, 100)
        .expect("first response");
    state
        .finish_write(initial[0].block, true, 100)
        .expect("first stored");
    let refill = state.schedule(100).expect("expanded refill");
    assert_eq!(refill.len(), 2);
    assert!(state
        .expire_requests(2_099)
        .expect("before adaptive deadline")
        .is_empty());
    let expired = state.expire_requests(2_100).expect("adaptive deadline");
    assert_eq!(expired.len(), 5);
    let snapshot = state.snapshot(2_100);
    assert_eq!(snapshot.requested_blocks, 0);
    assert_eq!(snapshot.outstanding_request_bytes, 0);
    assert_eq!(snapshot.request_target_total, 1);
    assert_eq!(snapshot.stalled_peers, 1);
    assert_eq!(snapshot.request_timeout_min, Some(secs(2)));
}

#[test]
fn expired_window_probes_once_and_recovers_on_requested_payload() {
    let mut state = state(1, vec![plan(0, 16)], 16);
    add_peer(&mut state, connection(1), &[0], false);
    assert_eq!(
        state.schedule(0).expect("initial").len(),
        DEFAULT_INITIAL_REQUESTS_PER_CONNECTION
    );
    assert_eq!(
        state.expire_requests(secs(30)).expect("expire").len(),
        DEFAULT_INITIAL_REQUESTS_PER_CONNECTION
    );
    let stalled = state.snapshot(secs(30));
    assert_eq!(stalled.request_target_total, 1);
    assert_eq!(stalled.stalled_peers, 1);

    let probe = state.schedule(secs(30)).expect("probe");
    assert_eq!(probe.len(), 1);
    state
        .receive_block(probe[0].connection, probe[0].block, secs(31))
        .expect("probe payload");
    state
        .finish_write(probe[0].block, true, secs(31))
        .expect("probe stored");
    let refill = state.schedule(secs(31)).expect("recovered");
    assert_eq!(refill.len(), MIN_HEALTHY_REQUESTS_PER_CONNECTION);
    let recovered = state.snapshot(secs(31));
    assert_eq!(
        recovered.request_target_total,
        MIN_HEALTHY_REQUESTS_PER_CONNECTION
    );
    assert_eq!(recovered.stalled_peers, 0);
    assert_eq!(recovered.outstanding_request_bytes, 2 * BLOCK as usize);
}

#[test]
fn choke_releases_only_that_connection_requests() {
    let mut state = state(1, vec![plan(0, 4)], 4);
    add_peer(&mut state, connection(1), &[0], false);
    add_peer(&mut state, connection(2), &[0], false);
    let assigned = state.schedule(0).expect("schedule");
    let peer_one = assigned
        .iter()
        .filter(|request| request.connection == connection(1))
        .count();
    let released = state.set_choking(connection(1), true).expect("peer choke");
    assert_eq!(released.len(), peer_one);
    assert!(state
        .attempts_for(released[0])
        .expect("attempts")
        .iter()
        .any(|attempt| attempt.disposition == RequestDisposition::Choked));
    assert_eq!(
        state.snapshot(0).requested_blocks,
        assigned.len() - peer_one
    );
}

fn blocks_of(piece: u32, blocks: u32) -> Vec<BlockKey> {
    (0..blocks)
        .map(|index| BlockKey::new(piece, index * BLOCK, BLOCK).expect("block"))
        .collect()
}

/// Recounts, through the public queries, what the state caches: block
/// phases, active attempts, outstanding bytes and per-connection requests.
fn assert_cached_indexes(state: &SwarmState, blocks: &[BlockKey], connections: &[ConnectionId]) {
    let snapshot = state.snapshot(0);
    let mut phases = [0_usize; 5];
    let mut active_attempts = 0_usize;
    let mut outstanding = 0_usize;
    let mut per_connection = vec![0_usize; connections.len()];
    for block in blocks {
        let status = state.block_status(*block).expect("planned block");
        phases[match status {
            BlockStatus::Missing => 0,
            BlockStatus::Requested => 1,
            BlockStatus::Writing => 2,
            BlockStatus::Received => 3,
            BlockStatus::Verified => 4,
        }] += 1;
        for attempt in state.attempts_for(*block).expect("attempts") {
            if attempt.disposition == RequestDisposition::Requested {
                assert_eq!(attempt.block, *block);
                active_attempts += 1;
                outstanding += attempt.block.length as usize;
                if let Some(index) = connections.iter().position(|id| *id == attempt.connection) {
                    per_connection[index] += 1;
                }
            }
        }
    }
    assert_eq!(snapshot.missing_blocks, phases[0]);
    assert_eq!(snapshot.requested_blocks, phases[1]);
    assert_eq!(snapshot.writing_blocks, phases[2]);
    assert_eq!(snapshot.received_blocks, phases[3]);
    assert_eq!(snapshot.verified_blocks, phases[4]);
    assert_eq!(snapshot.active_request_attempts, active_attempts);
    assert_eq!(snapshot.outstanding_request_bytes, outstanding);
    for (index, id) in connections.iter().enumerate() {
        assert_eq!(state.connection_request_count(*id), per_connection[index]);
    }
}

#[test]
fn fast_choke_retains_requests_and_exact_reject_refills_immediately() {
    let mut state = state(1, vec![plan(0, 4)], 4);
    add_peer(&mut state, connection(1), &[0], false);
    add_peer(&mut state, connection(2), &[0], false);
    state
        .set_fast_extension(connection(1), true)
        .expect("enable Fast before requests");
    let assigned = state.schedule(0).expect("schedule");
    let rejected = assigned
        .iter()
        .find(|request| request.connection == connection(1))
        .copied()
        .expect("Fast peer request");
    let before = state.snapshot(0);

    assert!(state
        .set_choking(connection(1), true)
        .expect("Fast choke")
        .is_empty());
    assert_eq!(state.snapshot(0).requested_blocks, before.requested_blocks);
    assert_eq!(
        state
            .reject_request(connection(1), rejected.block)
            .expect("exact reject"),
        RejectDisposition::Accepted {
            attempt: rejected.attempt
        }
    );
    let after_reject = state.snapshot(0);
    assert_eq!(
        after_reject.outstanding_request_bytes,
        before.outstanding_request_bytes - BLOCK as usize
    );
    let refill = state.schedule(0).expect("immediate refill");
    assert_eq!(refill.len(), 1);
    assert_eq!(refill[0].connection, connection(2));
    assert_eq!(refill[0].block, rejected.block);
    assert_eq!(
        state
            .reject_request(connection(1), rejected.block)
            .expect("stale duplicate reject"),
        RejectDisposition::Stale
    );
    assert_eq!(
        state
            .reject_request(
                connection(1),
                BlockKey::new(0, 4 * BLOCK, BLOCK).expect("valid never-sent block")
            )
            .expect("never-sent reject"),
        RejectDisposition::NeverRequested
    );
}

#[test]
fn request_expiry_is_independent_from_other_peer_activity() {
    let mut state = state(1, vec![plan(0, 1)], 1);
    add_peer(&mut state, connection(1), &[0], false);
    let request = state.schedule(0).expect("schedule")[0];
    state
        .peer_has(connection(1), 0)
        .expect("unrelated valid activity");
    assert!(state.expire_requests(secs(29)).expect("not expired").is_empty());
    let expired = state.expire_requests(secs(30)).expect("expire");
    assert_eq!(expired[0].attempt, request.attempt);
    assert_eq!(state.snapshot(secs(30)).outstanding_request_bytes, 0);
}

#[test]
fn storage_gating_defers_request_and_replacement_deadlines() {
    let mut state = state(1, vec![plan(0, 1)], 1);
    add_peer(&mut state, connection(1), &[0], false);
    let request = state.schedule(0).expect("schedule")[0];
    state.defer_peer_deadlines(secs(20));
    assert!(state
        .expire_requests(secs(30))
        .expect("deferred request remains live")
        .is_empty());
    let snapshot = state.snapshot(secs(30));
    assert_eq!(snapshot.oldest_request_age, Some(secs(10)));
    let expired = state
        .expire_requests(secs(50))
        .expect("deferred request expires");
    assert_eq!(expired[0].attempt, request.attempt);
}

#[test]
fn late_response_after_reassignment_is_safe_and_accounted_once() {
    let mut state = state(1, vec![plan(0, 1)], 1);
    add_peer(&mut state, connection(1), &[0], false);
    add_peer(&mut state, connection(2), &[0], false);
    let first = state.schedule(0).expect("first request")[0];
    state.expire_requests(secs(30)).expect("expire first");
    state.set_choking(connection(1), true).expect("choke old");
    let second = state.schedule(secs(30)).expect("reassign")[0];
    assert_ne!(first.connection, second.connection);
    assert_eq!(
        state
            .receive_block(first.connection, first.block, secs(30))
            .expect("late block"),
        ReceiveDisposition::Accept {
            evidence: first.attempt,
            cancellations: vec![RequestCancellation {
                attempt: second.attempt,
                connection: second.connection,
                block: second.block,
            }],
            late: true,
        }
    );
    assert_eq!(state.snapshot(secs(30)).outstanding_request_bytes, 0);
    state.finish_write(first.block, true, secs(30)).expect("stored");
    assert_eq!(state.snapshot(secs(30)).outstanding_request_bytes, 0);
    assert_eq!(
        state
            .receive_block(second.connection, second.block, secs(30))
            .expect("duplicate"),
        ReceiveDisposition::Redundant
    );
    let never_requested = BlockKey::new(0, BLOCK * 4, BLOCK).expect("valid shape");
    assert_eq!(
        state
            .receive_block(connection(1), never_requested, secs(30))
            .expect("unsolicited classification"),
        ReceiveDisposition::Unsolicited
    );
    assert_eq!(
        state.mark_piece_verified(0).expect("verify late source"),
        vec![connection(1)]
    );
}

#[test]
fn strict_endgame_duplicates_one_idle_peer_and_first_response_cancels_loser() {
    let mut state = state(1, vec![plan(0, 2)], 3);
    for id in 1..=3 {
        add_peer(&mut state, connection(id), &[0], false);
    }
    let blocks = blocks_of(0, 2);
    let peers = [connection(1), connection(2), connection(3)];

    let assigned = state.schedule(0).expect("endgame schedule");
    assert_eq!(assigned.len(), 3);
    let duplicate_block = assigned
        .iter()
        .find_map(|candidate| {
            if assigned
                .iter()
                .filter(|request| request.block == candidate.block)
                .count()
                == 2
            {
                Some(candidate.block)
            } else {
                None
            }
        })
        .expect("one duplicated block");
    let owners = assigned
        .iter()
        .filter(|request| request.block == duplicate_block)
        .copied()
        .collect::<Vec<_>>();
    assert_eq!(owners.len(), 2);
    let initial = state.snapshot(0);
    assert_eq!(initial.requested_blocks, 2);
    assert_eq!(initial.active_request_attempts, 3);
    assert_eq!(initial.active_duplicate_attempts, 1);
    assert_eq!(initial.endgame_assignments, 1);
    assert_eq!(initial.outstanding_request_bytes, 3 * BLOCK as usize);
    assert_cached_indexes(&state, &blocks, &peers);

    let winner = owners[1];
    let loser = owners[0];
    assert_eq!(
        state
            .receive_block(winner.connection, winner.block, 1)
            .expect("winning block"),
        ReceiveDisposition::Accept {
            evidence: winner.attempt,
            cancellations: vec![RequestCancellation {
                attempt: loser.attempt,
                connection: loser.connection,
                block: loser.block,
            }],
            late: false,
        }
    );
    let writing = state.snapshot(1);
    assert_eq!(writing.active_request_attempts, 1);
    assert_eq!(writing.active_duplicate_attempts, 0);
    assert_eq!(writing.cancelled_request_attempts, 1);
    assert_eq!(writing.outstanding_request_bytes, BLOCK as usize);
    assert_cached_indexes(&state, &blocks, &peers);
    state
        .finish_write(winner.block, true, 1)
        .expect("winning write");
    assert_cached_indexes(&state, &blocks, &peers);
    assert_eq!(
        state
            .receive_block(loser.connection, loser.block, 2)
            .expect("late losing payload"),
        ReceiveDisposition::Redundant
    );
    assert_eq!(state.snapshot(2).redundant_payload_bytes, BLOCK as usize);
}

#[test]
fn strict_endgame_waits_until_every_ordinary_block_is_covered() {
    let mut state = state(2, vec![plan(0, 1), plan(1, 1)], 3);
    for id in 1..=3 {
        add_peer(&mut state, connection(id), &[0], false);
    }

    let assigned = state.schedule(0).expect("ordinary schedule");

    assert_eq!(assigned.len(), 1);
    let snapshot = state.snapshot(0);
    assert_eq!(snapshot.missing_blocks, 1);
    assert_eq!(snapshot.active_request_attempts, 1);
    assert_eq!(snapshot.active_duplicate_attempts, 0);
    assert_eq!(snapshot.endgame_assignments, 0);
}

#[test]
fn terminating_one_endgame_owner_keeps_the_other_request_live() {
    let mut state = state(1, vec![plan(0, 1)], 2);
    add_peer(&mut state, connection(1), &[0], false);
    add_peer(&mut state, connection(2), &[0], false);
    let assigned = state.schedule(0).expect("endgame schedule");
    assert_eq!(assigned.len(), 2);

    let released = state
        .remove_connection(connection(1), ConnectionRemoval::Disconnected)
        .expect("disconnect one owner");

    assert_eq!(released, vec![assigned[0].block]);
    let snapshot = state.snapshot(0);
    assert_eq!(snapshot.requested_blocks, 1);
    assert_eq!(snapshot.active_request_attempts, 1);
    assert_eq!(snapshot.active_duplicate_attempts, 0);
    assert_eq!(snapshot.outstanding_request_bytes, BLOCK as usize);
    assert_eq!(
        state.block_status(assigned[0].block).expect("block status"),
        BlockStatus::Requested
    );
    state
        .remove_connection(connection(2), ConnectionRemoval::Disconnected)
        .expect("disconnect final owner");
    assert_eq!(
        state.block_status(assigned[0].block).expect("missing block"),
        BlockStatus::Missing
    );
    assert_eq!(state.snapshot(0).outstanding_request_bytes, 0);
    add_peer(&mut state, connection(3), &[0], false);
    assert_eq!(state.schedule(secs(1)).expect("reschedule").len(), 1);
}

#[test]
fn disconnect_releases_requests_but_not_torrent_owned_writes() {
    let mut state = state(1, vec![plan(0, 2)], 2);
    add_peer(&mut state, connection(1), &[0], false);
    let assigned = state.schedule(0).expect("schedule");
    state
        .receive_block(connection(1), assigned[0].block, 0)
        .expect("payload");
    let released = state
        .remove_connection(connection(1), ConnectionRemoval::Disconnected)
        .expect("disconnect");
    assert_eq!(released, vec![assigned[1].block]);
    let snapshot = state.snapshot(0);
    assert_eq!(snapshot.writing_blocks, 1);
    assert_eq!(snapshot.outstanding_request_bytes, 0);
    state
        .finish_write(assigned[0].block, true, 0)
        .expect("write");
    assert_eq!(state.snapshot(0).outstanding_request_bytes, 0);
}

#[test]
fn split_availability_completes_through_two_peers() {
    let mut state = state(2, vec![plan(0, 1), plan(1, 1)], 2);
    add_peer(&mut state, connection(1), &[0], false);
    add_peer(&mut state, connection(2), &[1], false);
    let assigned = state.schedule(0).expect("schedule");
    assert_eq!(assigned.len(), 2);
    for request in assigned {
        assert!(matches!(
            state
                .receive_block(request.connection, request.block, 0)
                .expect("payload"),
            ReceiveDisposition::Accept { .. }
        ));
        state
            .finish_write(request.block, true, 0)
            .expect("write");
    }
    for piece in 0..2 {
        assert!(state.piece_ready(piece).expect("ready"));
        state.mark_piece_verified(piece).expect("verify");
    }
    assert_eq!(
        state.snapshot(0).no_request_reason,
        Some(NoRequestReason::Complete)
    );
}

#[test]
fn hash_failure_resets_only_one_piece_and_retains_bounded_contributors() {
    let mut state = state(2, vec![plan(0, 2), plan(1, 1)], 1);
    let mut blocks = blocks_of(0, 2);
    blocks.extend(blocks_of(1, 1));
    let peers = [connection(1), connection(2), connection(3), connection(4)];
    add_peer(&mut state, connection(3), &[1], false);
    let unrelated = state.schedule(0).expect("unrelated piece")[0];
    state
        .receive_block(unrelated.connection, unrelated.block, 0)
        .expect("unrelated payload");
    state
        .finish_write(unrelated.block, true, 0)
        .expect("unrelated write");
    assert_eq!(
        state.mark_piece_verified(1).expect("unrelated verify"),
        vec![connection(3)]
    );
    state.set_choking(connection(3), true).expect("choke peer");

    add_peer(&mut state, connection(1), &[0], false);
    let first = state.schedule(0).expect("first block")[0];
    state
        .receive_block(first.connection, first.block, 0)
        .expect("first payload");
    state
        .finish_write(first.block, true, 0)
        .expect("first write");
    state.set_choking(connection(1), true).expect("choke first");

    add_peer(&mut state, connection(2), &[0], false);
    let second = state.schedule(0).expect("second block")[0];
    state
        .receive_block(second.connection, second.block, 0)
        .expect("second payload");
    state
        .finish_write(second.block, true, 0)
        .expect("second write");

    let failure = state.mark_piece_hash_failed(0).expect("hash failure");
    assert_eq!(failure.piece, 0);
    assert_eq!(failure.contributors, vec![connection(1), connection(2)]);
    assert_eq!(failure.failed_bytes, 2 * BLOCK as usize);
    let failed = state.snapshot(0);
    assert_eq!(failed.missing_blocks, 2);
    assert_eq!(failed.verified_blocks, 1);
    assert_eq!(failed.outstanding_request_bytes, 0);
    assert_eq!(failed.piece_hash_failures, 1);
    assert_eq!(failed.failed_piece_bytes, 2 * BLOCK as usize);
    assert_eq!(failed.last_hash_failure_contributors, 2);
    assert_cached_indexes(&state, &blocks, &peers);

    state
        .set_choking(connection(2), true)
        .expect("choke second");
    add_peer(&mut state, connection(4), &[0], false);
    for _ in 0..2 {
        let request = state.schedule(0).expect("retry")[0];
        assert_eq!(request.connection, connection(4));
        state
            .receive_block(request.connection, request.block, 0)
            .expect("retry payload");
        state
            .finish_write(request.block, true, 0)
            .expect("retry write");
    }
    assert_eq!(
        state.mark_piece_verified(0).expect("retry verify"),
        vec![connection(4)]
    );
    assert_eq!(
        state.snapshot(0).no_request_reason,
        Some(NoRequestReason::Complete)
    );
    assert_cached_indexes(&state, &blocks, &peers);
}

#[test]
fn hash_failure_rejects_incomplete_or_already_verified_piece() {
    let mut state = state(1, vec![plan(0, 1)], 1);
    assert!(matches!(
        state.mark_piece_hash_failed(0),
        Err(SwarmError::InvalidTransition(_))
    ));
    add_peer(&mut state, connection(1), &[0], false);
    let request = state.schedule(0).expect("request")[0];
    state
        .receive_block(request.connection, request.block, 0)
        .expect("payload");
    state
        .finish_write(request.block, true, 0)
        .expect("write");
    state.mark_piece_verified(0).expect("verify");
    assert!(matches!(
        state.mark_piece_hash_failed(0),
        Err(SwarmError::InvalidTransition(_))
    ));
}

#[test]
fn full_choked_set_replaces_only_after_grace_and_protects_unique_data() {
    let mut config = SwarmConfig::for_request_limit(BLOCK as usize);
    config.max_established_connections = 2;
    config.unproductive_grace = secs(30);
    let mut state =
        SwarmState::new(config, 2, vec![plan(0, 1), plan(1, 1)]).expect("swarm state");
    add_peer(&mut state, connection(1), &[0, 1], true);
    add_peer(&mut state, connection(2), &[0], true);
    assert_eq!(state.snapshot(secs(29)).next_replacement_at, Some(secs(30)));
    assert_eq!(state.replacement_candidate(secs(29)), None);
    assert_eq!(state.replacement_candidate(secs(30)), Some(connection(2)));
    assert_eq!(
        state.snapshot(secs(30)).no_request_reason,
        Some(NoRequestReason::AllUsefulPeersChoked)
    );
}

#[test]
fn irrelevant_peer_is_replaced_but_no_capacity_does_not_trigger_churn() {
    let mut config = SwarmConfig::for_request_limit(BLOCK as usize);
    config.max_established_connections = 2;
    config.unproductive_grace = secs(10);
    let mut state = SwarmState::new(config, 1, vec![plan(0, 1)]).expect("swarm");
    add_peer(&mut state, connection(1), &[0], true);
    add_peer(&mut state, connection(2), &[], true);
    assert_eq!(state.replacement_candidate(secs(10)), Some(connection(2)));
    state
        .remove_connection(connection(2), ConnectionRemoval::Replaced)
        .expect("replace");
    assert_eq!(state.replacement_candidate(secs(100)), None);
}

#[test]
fn retained_attempt_history_and_active_piece_count_stay_bounded() {
    let mut config = SwarmConfig::for_request_limit(BLOCK as usize);
    config.max_terminal_attempts_per_block = 2;
    config.max_active_piece_bytes = 2 * BLOCK as usize;
    config.request_timeout = secs(1);
    let mut state = SwarmState::new(config, 2, vec![plan(0, 2), plan(1, 1)]).expect("swarm");
    add_peer(&mut state, connection(1), &[0, 1], false);
    for second in 0..5 {
        state.schedule(secs(second)).expect("schedule");
        state.expire_requests(secs(second + 1)).expect("expire");
    }
    let first = BlockKey::new(0, 0, BLOCK).expect("block");
    assert!(state.attempts_for(first).expect("attempts").len() <= 2);
    let assigned = state.schedule(secs(10)).expect("schedule");
    assert!(assigned
        .iter()
        .all(|assignment| assignment.block.piece == 0));
}

#[test]
fn availability_accounting_is_exact_through_duplicates_seed_transition_and_disconnect() {
    let mut state = SwarmState::new_with_wanted(
        SwarmConfig::for_request_limit(4 * BLOCK as usize),
        4,
        vec![0, 1, 2, 3],
        Vec::new(),
        0x91,
    )
    .expect("unplanned swarm");
    state.add_connection(connection(1), 0).expect("first peer");
    state
        .set_bitfield(connection(1), vec![true, false, true, false])
        .expect("first bitfield");
    state.peer_has(connection(1), 2).expect("duplicate have");
    assert_eq!(state.piece_availability(2), Ok(1));
    state.peer_has(connection(1), 1).expect("new have");
    state.peer_has(connection(1), 3).expect("seed transition");
    assert_eq!(state.snapshot(0).availability_seed_count, 1);
    assert_eq!(
        (0..4)
            .map(|piece| state.piece_availability(piece).expect("availability"))
            .collect::<Vec<_>>(),
        vec![1, 1, 1, 1]
    );

    add_peer(&mut state, connection(2), &[0, 1], false);
    assert_eq!(
        (0..4)
            .map(|piece| state.piece_availability(piece).expect("availability"))
            .collect::<Vec<_>>(),
        vec![2, 2, 1, 1]
    );
    state
        .remove_connection(connection(1), ConnectionRemoval::Disconnected)
        .expect("remove seed");
    assert_eq!(state.snapshot(0).availability_seed_count, 0);
    assert_eq!(
        (0..4)
            .map(|piece| state.piece_availability(piece).expect("availability"))
            .collect::<Vec<_>>(),
        vec![1, 1, 0, 0]
    );
    assert_cached_indexes(&state, &[], &[connection(1), connection(2)]);
}

#[test]
fn global_rarest_piece_is_planned_and_activated_before_common_work() {
    let mut state = SwarmState::new_with_wanted(
        SwarmConfig::for_request_limit(4 * BLOCK as usize),
        4,
        vec![0, 1, 2, 3],
        Vec::new(),
        0,
    )
    .expect("unplanned swarm");
    add_peer(&mut state, connection(1), &[0, 1, 2], false);
    add_peer(&mut state, connection(2), &[0, 1], false);

    let piece = state
        .reserve_piece_for_planning(256)
        .expect("rarest plan reservation");
    assert_eq!(piece, 2);
    state
        .append_piece_plans(vec![plan(piece, 1)])
        .expect("rarest plan");
    let assignments = state.schedule(0).expect("schedule");
    assert_eq!(assignments[0].block.piece, 2);
    let snapshot = state.snapshot(0);
    assert_eq!(snapshot.last_activated_piece, Some(2));
    assert_eq!(snapshot.last_activated_availability, Some(1));

    let mut config = SwarmConfig::for_request_limit(4 * BLOCK as usize);
    config.piece_activation_policy = PieceActivationPolicy::InOrder;
    let mut in_order = SwarmState::new_with_wanted(config, 4, vec![0, 1, 2, 3], Vec::new(), 0)
        .expect("in-order swarm");
    add_peer(&mut in_order, connection(1), &[0, 1, 2], false);
    add_peer(&mut in_order, connection(2), &[0, 1], false);
    assert_eq!(in_order.reserve_piece_for_planning(256), Some(0));
}

#[test]
fn bounded_planning_sweep_reaches_common_work_behind_blocked_rare_pieces() {
    let mut state = SwarmState::new_with_wanted(
        SwarmConfig::for_request_limit(4 * BLOCK as usize),
        300,
        (0..300).collect(),
        Vec::new(),
        0,
    )
    .expect("unplanned swarm");
    add_peer(
        &mut state,
        connection(1),
        &(0..=256).collect::<Vec<_>>(),
        true,
    );
    add_peer(&mut state, connection(2), &[257], false);
    add_peer(&mut state, connection(3), &[257], false);

    assert_eq!(state.reserve_piece_for_planning(256), None);
    assert_eq!(state.snapshot(0).picker_candidate_inspections, 256);
    assert_eq!(state.reserve_piece_for_planning(256), Some(257));
    assert_eq!(state.snapshot(0).picker_candidate_inspections, 258);
}

#[test]
fn plan_lookahead_is_independent_from_the_current_request_window() {
    let mut state = SwarmState::new_with_wanted(
        SwarmConfig::for_request_limit(2 * BLOCK as usize),
        2,
        vec![0, 1],
        vec![plan(0, 2)],
        0,
    )
    .expect("lookahead swarm");
    add_peer(&mut state, connection(1), &[0, 1], false);
    assert_eq!(state.schedule(0).expect("schedule").len(), 2);
    assert_eq!(state.connection_request_count(connection(1)), 2);
    let visits = state.snapshot(0).inactive_planned_piece_visits;
    assert!(state.schedule(0).expect("full window").is_empty());
    assert_eq!(state.snapshot(0).inactive_planned_piece_visits, visits);
    assert_eq!(state.reserve_piece_for_planning(256), Some(1));
}

#[test]
fn full_request_window_never_visits_the_inactive_lookahead() {
    const PLANNED: u32 = 256;
    const ATTEMPTS: usize = 100_000;
    let plans = (0..PLANNED).map(|piece| plan(piece, 1)).collect();
    let mut state = SwarmState::new(
        SwarmConfig::for_request_limit(2 * BLOCK as usize),
        PLANNED as usize,
        plans,
    )
    .expect("hostile lookahead swarm");
    let pieces = (0..PLANNED as usize).collect::<Vec<_>>();
    add_peer(&mut state, connection(1), &pieces, false);
    assert_eq!(state.schedule(0).expect("schedule").len(), 2);

    let visits = state.snapshot(0).inactive_planned_piece_visits;
    for _ in 0..ATTEMPTS {
        assert!(state
            .schedule(0)
            .expect("full request window")
            .is_empty());
    }
    assert_eq!(state.snapshot(0).inactive_planned_piece_visits, visits);
}

#[test]
fn unique_unplanned_wanted_piece_protects_its_peer_from_replacement() {
    let mut config = SwarmConfig::for_request_limit(4 * BLOCK as usize);
    config.max_established_connections = 3;
    config.unproductive_grace = secs(1);
    let mut state =
        SwarmState::new_with_wanted(config, 4, vec![0, 1, 2, 3], vec![plan(0, 1)], 0)
            .expect("partially planned swarm");
    add_peer(&mut state, connection(1), &[3], true);
    add_peer(&mut state, connection(2), &[0], true);
    add_peer(&mut state, connection(3), &[0], true);

    let activity = state.connection_activity(0);
    let first = activity
        .iter()
        .find(|entry| entry.id == connection(1))
        .expect("first peer");
    assert_eq!(first.wanted_piece_count, 1);
    assert_eq!(state.replacement_candidate(secs(1)), Some(connection(2)));
}

#[test]
fn active_piece_count_is_independent_from_the_byte_ceiling() {
    let mut config = SwarmConfig::for_request_limit(4 * BLOCK as usize);
    config.initial_requests_per_connection = 4;
    config.max_active_pieces = 2;
    let mut state = SwarmState::new(config, 4, (0..4).map(|piece| plan(piece, 1)).collect())
        .expect("count-bounded swarm");
    add_peer(&mut state, connection(1), &[0, 1, 2, 3], false);
    let assignments = state.schedule(0).expect("schedule");
    assert_eq!(assignments.len(), 2);
    assert_eq!(state.snapshot(0).active_piece_count, 2);
}

#[test]
fn partial_pressure_bounds_new_activation_without_cancelling_owned_work() {
    let mut config = SwarmConfig::for_request_limit(64 * 1024 * 1024);
    config.max_active_piece_bytes = 64 * 1024 * 1024;
    let mut peer_bounded =
        SwarmState::new(config, 3, (0..3).map(|piece| plan(piece, 2)).collect())
            .expect("peer-pressure swarm");
    add_peer(&mut peer_bounded, connection(1), &[0, 1, 2], false);
    peer_bounded.activate_piece(0).expect("first partial");
    assert!(peer_bounded.can_activate_piece(1));
    peer_bounded.activate_piece(1).expect("threshold crossing");
    assert!(!peer_bounded.can_activate_piece(2));
    assert_eq!(peer_bounded.snapshot(0).active_piece_count, 2);

    let mut block_bounded = SwarmState::new(config, 2, vec![plan(0, 2_049), plan(1, 1)])
        .expect("block-pressure swarm");
    add_peer(&mut block_bounded, connection(1), &[0, 1], false);
    block_bounded
        .activate_piece(0)
        .expect("one oversized partial span");
    assert_eq!(block_bounded.requestable_active_blocks(), 2_049);
    assert!(!block_bounded.can_activate_piece(1));
    assert_eq!(block_bounded.snapshot(0).active_piece_count, 1);
}

#[test]
fn falling_peer_count_stops_new_activation_but_retains_active_pieces() {
    let mut config = SwarmConfig::for_request_limit(64 * BLOCK as usize);
    config.max_active_piece_bytes = 64 * BLOCK as usize;
    let mut state = SwarmState::new(config, 7, (0..7).map(|piece| plan(piece, 2)).collect())
        .expect("peer-pressure swarm");
    for id in 1..=3 {
        add_peer(
            &mut state,
            connection(id),
            &(0..7).collect::<Vec<_>>(),
            false,
        );
    }
    for piece in 0..5 {
        assert!(state.can_activate_piece(piece));
        state.activate_piece(piece as u32).expect("active piece");
    }
    state
        .remove_connection(connection(2), ConnectionRemoval::Disconnected)
        .expect("second peer leaves");
    state
        .remove_connection(connection(3), ConnectionRemoval::Disconnected)
        .expect("third peer leaves");
    assert!(!state.can_activate_piece(5));
    assert_eq!(state.snapshot(0).active_piece_count, 5);
}

#[test]
fn cancellation_releases_every_reservation_and_pending_dial() {
    let mut state = state(1, vec![plan(0, 2)], 2);
    state.begin_dial(dial(1)).expect("dial");
    add_peer(&mut state, connection(1), &[0], false);
    let assigned = state.schedule(0).expect("schedule");
    state
        .receive_block(connection(1), assigned[0].block, 0)
        .expect("payload");
    state.cancel_all().expect("cancel");
    assert_cached_indexes(&state, &blocks_of(0, 2), &[connection(1)]);
    let snapshot = state.snapshot(0);
    assert_eq!(snapshot.pending_dials, 0);
    assert_eq!(snapshot.outstanding_request_bytes, 0);
    assert_eq!(snapshot.requested_blocks, 0);
    assert_eq!(snapshot.writing_blocks, 0);
}

#[test]
fn distributes_requests_fairly_and_holds_the_global_request_bound() {
    let mut state = state(1, vec![plan(0, 8)], 4);
    for id in [connection(1), connection(2)] {
        add_peer(&mut state, id, &[0], false);
    }
    let assignments = state.schedule(0).expect("schedule");
    assert_eq!(assignments.len(), 4);
    assert_eq!(
        assignments
            .iter()
            .map(|assignment| assignment.connection)
            .collect::<BTreeSet<_>>(),
        BTreeSet::from([connection(1), connection(2)])
    );
    let snapshot = state.snapshot(0);
    assert_eq!(snapshot.outstanding_request_bytes, 4 * BLOCK as usize);
    assert_eq!(
        snapshot.outstanding_request_high_water,
        snapshot.outstanding_request_bytes
    );
    assert_eq!(
        snapshot.no_request_reason,
        Some(NoRequestReason::OutstandingRequestLimit)
    );
}

#[test]
fn slow_start_settles_on_a_bounded_three_second_rate_target() {
    let config = SwarmConfig::for_request_limit(64 * BLOCK as usize);
    let mut window = RequestWindow::new(0, config.initial_requests_per_connection);
    window.accepted_payload(100, BLOCK as usize, Some(0), config);
    assert_eq!(window.target, 5);
    window.accepted_payload(1_100, BLOCK as usize, Some(secs(1)), config);
    assert_eq!(window.phase, RequestWindowPhase::SlowStart);
    assert_eq!(window.target, 6);

    window.refresh(2_100, config);
    assert_eq!(window.phase, RequestWindowPhase::Steady);
    assert_eq!(window.observed_payload_rate, BLOCK as usize);
    assert_eq!(window.target, 3);
    assert_eq!(
        rate_target(usize::MAX, config),
        DEFAULT_MAX_REQUESTS_PER_CONNECTION
    );
}

#[test]
fn fast_initial_availability_and_advisories_are_strict_and_bounded() {
    let mut state = state(64, vec![plan(0, 1)], 1);
    let peer = connection(1);
    state.add_connection(peer, 0).expect("peer");
    state
        .set_fast_extension(peer, true)
        .expect("enable Fast before messages");
    state
        .observe_fast_message(peer, &PeerMessage::KeepAlive)
        .expect("capability-neutral control may precede availability");
    assert!(state
        .observe_fast_message(peer, &PeerMessage::SuggestPiece(0))
        .is_err());
    state
        .observe_fast_message(peer, &PeerMessage::HaveNone)
        .expect("initial have-none");
    state.set_have_none(peer).expect("apply have-none");
    assert!(state
        .observe_fast_message(peer, &PeerMessage::HaveAll)
        .is_err());
    for piece in 0..64 {
        state
            .observe_fast_message(peer, &PeerMessage::SuggestPiece(piece))
            .expect("bounded suggestion");
        state
            .observe_fast_message(peer, &PeerMessage::AllowedFast(piece))
            .expect("bounded allowed-fast");
    }
    for _ in 0..8 {
        state
            .observe_fast_message(peer, &PeerMessage::SuggestPiece(0))
            .expect("duplicate suggestion");
        state
            .observe_fast_message(peer, &PeerMessage::AllowedFast(0))
            .expect("duplicate allowed-fast");
    }
    assert_eq!(
        state.fast_peer_snapshot(peer).expect("Fast snapshot"),
        FastPeerSnapshot {
            negotiated: true,
            initial_availability_received: true,
            suggestions: MAX_FAST_ADVISORY_PIECES,
            allowed_fast: MAX_FAST_ADVISORY_PIECES,
        }
    );
    assert!(state
        .observe_fast_message(peer, &PeerMessage::SuggestPiece(64))
        .is_err());
}

#[test]
fn received_allowed_fast_permits_only_that_piece_while_choked() {
    let mut state = state(2, vec![plan(0, 1), plan(1, 1)], 2);
    let peer = connection(1);
    state.add_connection(peer, 0).expect("peer");
    state
        .set_fast_extension(peer, true)
        .expect("enable Fast before messages");
    let bitfield = PeerMessage::Bitfield(vec![0b1100_0000]);
    state
        .observe_fast_message(peer, &bitfield)
        .expect("initial bitfield");
    state
        .set_compact_bitfield(peer, vec![0b1100_0000])
        .expect("apply initial bitfield");
    state
        .observe_fast_message(peer, &PeerMessage::AllowedFast(1))
        .expect("allowed-fast piece");
    let assignment = state.schedule(0).expect("choked Fast schedule");
    assert_eq!(assignment.len(), 1);
    assert_eq!(assignment[0].block.piece, 1);
    assert_eq!(
        state
            .reject_request(peer, assignment[0].block)
            .expect("allowed-fast reject"),
        RejectDisposition::Accepted {
            attempt: assignment[0].attempt
        }
    );
    assert!(state
        .schedule(0)
        .expect("no remaining Fast work")
        .is_empty());
}

#[test]
fn fast_suggestions_precede_only_ordinary_equal_rarity_ties() {
    let mut tied = SwarmState::new_with_wanted(
        SwarmConfig::for_request_limit(4 * BLOCK as usize),
        3,
        vec![0, 1, 2],
        Vec::new(),
        0,
    )
    .expect("unplanned swarm");
    add_peer(&mut tied, connection(1), &[0, 1, 2], false);
    tied.set_fast_extension(connection(1), true)
        .expect("enable Fast");
    let initial = PeerMessage::Bitfield(vec![0b1110_0000]);
    tied.observe_fast_message(connection(1), &initial)
        .expect("initial availability");
    tied.set_compact_bitfield(connection(1), vec![0b1110_0000])
        .expect("apply availability");
    tied.observe_fast_message(connection(1), &PeerMessage::SuggestPiece(1))
        .expect("suggest equal-rarity piece");
    assert_eq!(tied.reserve_piece_for_planning(256), Some(1));

    let mut rarest = SwarmState::new_with_wanted(
        SwarmConfig::for_request_limit(4 * BLOCK as usize),
        3,
        vec![0, 1, 2],
        Vec::new(),
        0,
    )
    .expect("unplanned swarm");
    add_peer(&mut rarest, connection(1), &[0, 1, 2], false);
    add_peer(&mut rarest, connection(2), &[0], false);
    rarest
        .set_fast_extension(connection(1), true)
        .expect("enable Fast");
    rarest
        .observe_fast_message(connection(1), &initial)
        .expect("initial availability");
    rarest
        .set_compact_bitfield(connection(1), vec![0b1110_0000])
        .expect("apply availability");
    rarest
        .observe_fast_message(connection(1), &PeerMessage::SuggestPiece(0))
        .expect("suggest common piece");
    assert_ne!(rarest.reserve_piece_for_planning(256), Some(0));
}

#[test]
fn choking_one_peer_keeps_every_other_peer_request() {
    let mut state = state(1, vec![plan(0, 6)], 6);
    add_peer(&mut state, connection(1), &[0], false);
    add_peer(&mut state, connection(2), &[0], false);
    let assigned = state.schedule(0).expect("schedule");
    let others = assigned
        .iter()
        .filter(|request| request.connection == connection(2))
        .copied()
        .collect::<Vec<_>>();
    let released = state.set_choking(connection(1), true).expect("choke");
    assert_eq!(released.len(), assigned.len() - others.len());
    for request in &others {
        assert_eq!(
            state.block_status(request.block).expect("status"),
            BlockStatus::Requested
        );
    }
    assert_eq!(state.connection_request_count(connection(1)), 0);
    assert_eq!(state.connection_request_count(connection(2)), others.len());
    assert!(state.set_choking(connection(2), false).expect("unchoke").is_empty());
}

#[test]
fn every_request_older_than_the_timeout_expires() {
    let mut state = state(1, vec![plan(0, 4)], 4);
    add_peer(&mut state, connection(1), &[0], false);
    let first = state.schedule(0).expect("first");
    assert_eq!(first.len(), DEFAULT_INITIAL_REQUESTS_PER_CONNECTION);
    let expired = state.expire_requests(secs(30)).expect("expire");
    assert_eq!(expired.len(), first.len());
    for request in &first {
        assert!(expired.iter().any(|entry| entry.attempt == request.attempt));
    }
    assert_eq!(state.snapshot(secs(30)).active_request_attempts, 0);
}

#[test]
fn schedule_adds_exactly_the_requests_it_returns() {
    let mut state = state(2, vec![plan(0, 3), plan(1, 3)], 6);
    add_peer(&mut state, connection(1), &[0, 1], false);
    let before = state.snapshot(0).active_request_attempts;
    let assigned = state.schedule(0).expect("schedule");
    assert_eq!(
        state.snapshot(0).active_request_attempts,
        before + assigned.len()
    );
    for request in &assigned {
        let attempts = state.attempts_for(request.block).expect("attempts");
        assert!(attempts.iter().any(|attempt| attempt.id == request.attempt
            && attempt.issued_at == 0
            && attempt.disposition == RequestDisposition::Requested));
    }
}

#[test]
fn fast_messages_need_negotiation_and_initial_availability() {
    let mut state = state(4, vec![plan(0, 1)], 1);
    let peer = connection(1);
    state.add_connection(peer, 0).expect("peer");
    assert!(matches!(
        state.observe_fast_message(peer, &PeerMessage::HaveAll),
        Err(SwarmError::InvalidTransition(_))
    ));
    assert!(state.observe_fast_message(peer, &PeerMessage::Have(1)).is_ok());
    state.set_fast_extension(peer, true).expect("enable Fast");
    assert!(matches!(
        state.observe_fast_message(peer, &PeerMessage::Have(1)),
        Err(SwarmError::InvalidTransition(_))
    ));
    assert!(state.observe_fast_message(peer, &PeerMessage::Choke).is_ok());
    assert!(matches!(
        state.observe_fast_message(connection(9), &PeerMessage::KeepAlive),
        Err(SwarmError::UnknownConnection(_))
    ));
    state.set_have_all(peer).expect("have all");
    assert_eq!(
        state.observe_fast_message(peer, &PeerMessage::AllowedFast(9)),
        Err(SwarmError::PieceOutOfRange {
            piece: 9,
            piece_count: 4
        })
    );
}
