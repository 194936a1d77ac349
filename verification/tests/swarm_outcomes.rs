use rstorrent_engine::swarm::{SwarmState, ERR_FAST_AFTER_REQUESTS, ERR_HASH_EARLY, ERR_RETIRE_EARLY};
use rstorrent_engine::staging::piece_digest;
use rstorrent_engine::swarm_types::{
    BlockStatus, ConnectionId, ConnectionRemoval, PieceActivationPolicy, PiecePlan, ReceiveDisposition, SwarmConfig,
    SwarmError, MAX_REQUEST_BLOCK_LENGTH,
};

const UNIT: u32 = MAX_REQUEST_BLOCK_LENGTH;

fn peer_id(value: u64) -> ConnectionId {
    ConnectionId::new(value).expect("nonzero connection")
}

fn one_block_plan(piece: u32) -> PiecePlan {
    PiecePlan::new(piece, &[(0, UNIT)]).expect("piece plan")
}

fn fresh_swarm(piece_count: usize, plans: Vec<PiecePlan>) -> SwarmState {
    let mut config = SwarmConfig::for_request_limit(4 * UNIT as usize);
    config.request_timeout = 30_000;
    config.unproductive_grace = 30_000;
    SwarmState::new(config, piece_count, plans).expect("swarm state")
}

fn join_peer(state: &mut SwarmState, id: ConnectionId, pieces: &[usize]) {
    state.add_connection(id, 0).expect("peer");
    let mut availability = vec![false; state.piece_count()];
    for &piece in pieces {
        availability[piece] = true;
    }
    state.set_bitfield(id, availability).expect("bitfield");
    state.set_choking(id, false).expect("unchoke");
}

#[test]
fn fast_setting_is_refused_once_a_request_is_active() {
    let mut state = fresh_swarm(1, vec![one_block_plan(0)]);
    join_peer(&mut state, peer_id(1), &[0]);
    assert_eq!(state.set_fast_extension(peer_id(1), true), Ok(()));
    let assigned = state.schedule(0).expect("schedule");
    assert_eq!(assigned.len(), 1);
    assert_eq!(
        state.set_fast_extension(peer_id(1), false),
        Err(SwarmError::InvalidTransition(ERR_FAST_AFTER_REQUESTS))
    );
}

#[test]
fn verified_piece_retires_and_its_blocks_become_unknown() {
    let mut state = fresh_swarm(2, vec![one_block_plan(0), one_block_plan(1)]);
    assert_eq!(state.retire_verified_piece(1), Err(SwarmError::InvalidTransition(ERR_RETIRE_EARLY)));
    assert_eq!(state.retire_verified_piece(5), Err(SwarmError::UnknownPiece(5)));
    join_peer(&mut state, peer_id(3), &[0, 1]);
    let assigned = state.schedule(0).expect("schedule");
    let request = assigned
        .iter()
        .find(|a| a.block.piece == 1)
        .copied()
        .expect("piece one requested");
    assert_eq!(state.block_status(request.block), Ok(BlockStatus::Requested));
    assert!(matches!(
        state.receive_block(peer_id(3), request.block, 0).expect("payload"),
        ReceiveDisposition::Accept { .. }
    ));
    assert_eq!(state.block_status(request.block), Ok(BlockStatus::Writing));
    assert_eq!(state.mark_piece_verified(1), Err(SwarmError::InvalidTransition(ERR_HASH_EARLY)));
    state.finish_write(request.block, true, 0).expect("write");
    assert_eq!(state.mark_piece_verified(1), Ok(vec![peer_id(3)]));
    assert_eq!(state.planned_piece_count(), 2);
    assert_eq!(state.retire_verified_piece(1), Ok(()));
    assert_eq!(state.planned_piece_count(), 1);
    assert_eq!(state.block_status(request.block), Err(SwarmError::UnknownBlock(request.block)));
}

#[test]
fn repeated_have_leaves_the_state_unchanged() {
    let mut state = fresh_swarm(2, vec![one_block_plan(0), one_block_plan(1)]);
    state.add_connection(peer_id(1), 0).expect("peer");
    assert_eq!(state.peer_has(peer_id(1), 1), Ok(()));
    let first = state.snapshot(0);
    assert_eq!(state.peer_has(peer_id(1), 1), Ok(()));
    assert_eq!(state.snapshot(0), first);
    assert_eq!(
        state.peer_has(peer_id(1), 2),
        Err(SwarmError::PieceOutOfRange { piece: 2, piece_count: 2 })
    );
}

#[test]
fn nothing_due_expires_nothing_and_idle_swarm_cancels_cleanly() {
    let mut state = fresh_swarm(1, vec![one_block_plan(0)]);
    join_peer(&mut state, peer_id(2), &[0]);
    assert_eq!(state.schedule(0).expect("schedule").len(), 1);
    assert_eq!(state.expire_requests(1_000).expect("expire").len(), 0);
    assert_eq!(state.snapshot(1_000).active_request_attempts, 1);
    assert_eq!(state.snapshot(1_000).oldest_request_age, Some(1_000));
    let mut idle = fresh_swarm(1, vec![one_block_plan(0)]);
    assert_eq!(idle.cancel_all(), Ok(()));
    idle.add_connection(peer_id(4), 0).expect("peer");
    assert_eq!(idle.remove_connection(peer_id(4), ConnectionRemoval::Disconnected), Ok(vec![]));
    assert_eq!(idle.snapshot(0).connected_peers, 0);
}

fn planning_swarm(policy: PieceActivationPolicy) -> SwarmState {
    let mut config = SwarmConfig::for_request_limit(4 * UNIT as usize);
    config.piece_activation_policy = policy;
    let mut state = SwarmState::new_with_wanted(config, 4, vec![0, 1, 2, 3], vec![], 0).expect("swarm state");
    join_peer(&mut state, peer_id(1), &[0, 1, 2]);
    join_peer(&mut state, peer_id(2), &[0, 1]);
    state
}

#[test]
fn planning_reserves_the_rarest_servable_piece_or_the_first_in_order() {
    let mut rarest = planning_swarm(PieceActivationPolicy::RarestFirst);
    assert_eq!(rarest.reserve_piece_for_planning(0), None);
    assert_eq!(rarest.reserve_piece_for_planning(256), Some(2));
    let mut in_order = planning_swarm(PieceActivationPolicy::InOrder);
    assert_eq!(in_order.reserve_piece_for_planning(256), Some(0));
}

#[test]
fn fresh_swarm_is_incomplete_and_piece_digest_is_sha1() {
    let state = fresh_swarm(1, vec![one_block_plan(0)]);
    assert!(!state.is_complete());
    let digest = piece_digest(&b"abc".to_vec());
    assert_eq!(
        digest,
        vec![
            0xa9, 0x99, 0x3e, 0x36, 0x47, 0x06, 0x81, 0x6a, 0xba, 0x3e, 0x25, 0x71, 0x78, 0x50, 0xc2, 0x6c, 0x9c, 0xd0,
            0xd8, 0x9d
        ]
    );
}

#[test]
fn refused_dial_leaves_the_pending_set() {
    let mut state = fresh_swarm(1, vec![one_block_plan(0)]);
    let first = rstorrent_engine::swarm_types::PendingDialId::new(1).expect("dial");
    assert_eq!(state.begin_dial(first), Ok(()));
    let before = state.snapshot(0);
    assert_eq!(state.begin_dial(first), Err(SwarmError::DuplicatePendingDial(first)));
    assert_eq!(state.snapshot(0), before);
    assert_eq!(state.finish_dial(first), Ok(()));
    assert_eq!(state.snapshot(0).pending_dials, 0);
}
