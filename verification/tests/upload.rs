use rstorrent_engine::swarm_types::{BlockRequest, PeerMessage};
use rstorrent_engine::upload::{
    absorb_digest, generate_allowed_fast_set, UploadAction, UploadCloseReason, UploadPeerState,
    UploadRead, ERR_ALLOWED_FAST_GEOMETRY, ERR_ALLOWED_OUTSIDE, ERR_FAST_AFTER_REQUESTS,
    ERR_GEOMETRY, ERR_ZERO_PIECE, MAX_QUEUED_UPLOAD_BYTES, MAX_QUEUED_UPLOAD_REQUESTS,
};

fn request(index: u32, begin: u32, length: u32) -> BlockRequest {
    BlockRequest {
        index,
        begin,
        length,
    }
}

fn interested(state: &mut UploadPeerState) {
    assert!(state.on_message(&PeerMessage::Interested).is_empty());
    assert_eq!(
        state.set_granted(true),
        [UploadAction::Send(PeerMessage::Unchoke)]
    );
}

#[test]
fn bitfield_is_exact_and_zeroes_spare_bits() {
    let state = UploadPeerState::new(
        vec![16; 10],
        vec![
            true, false, true, true, false, false, false, true, true, false,
        ],
    )
    .expect("valid state");
    assert_eq!(state.bitfield(), [0b1011_0001, 0b1000_0000]);
}

#[test]
fn fast_initial_availability_chooses_exactly_one_compact_form() {
    let all = UploadPeerState::new(vec![4; 3], vec![true; 3]).expect("all state");
    let none = UploadPeerState::new(vec![4; 3], vec![false; 3]).expect("none state");
    let mixed = UploadPeerState::new(vec![4; 3], vec![true, false, true]).expect("mixed state");
    assert_eq!(all.initial_availability_message(true), PeerMessage::HaveAll);
    assert_eq!(
        none.initial_availability_message(true),
        PeerMessage::HaveNone
    );
    assert_eq!(
        mixed.initial_availability_message(true),
        PeerMessage::Bitfield(vec![0b1010_0000])
    );
    assert!(matches!(
        all.initial_availability_message(false),
        PeerMessage::Bitfield(_)
    ));
}

#[test]
fn canonical_allowed_fast_generation_matches_bep_6_vectors() {
    let info_hash = [0xaa; 20];
    let address = [80, 4, 4, 200];
    assert_eq!(
        generate_allowed_fast_set(info_hash, address, 1_313, 7).expect("seven pieces"),
        [1059, 431, 808, 1217, 287, 376, 1188]
    );
    assert_eq!(
        generate_allowed_fast_set(info_hash, address, 1_313, 9).expect("nine pieces"),
        [1059, 431, 808, 1217, 287, 376, 1188, 353, 508]
    );
    assert_eq!(
        generate_allowed_fast_set(info_hash, address, 3, 32).expect("capped pieces"),
        [1, 2, 0]
    );
    assert!(generate_allowed_fast_set(info_hash, address, 0, 10).is_err());
}

#[test]
fn ignores_requests_until_interested_and_unchoked() {
    let mut state = UploadPeerState::new(vec![16], vec![true]).expect("valid state");
    assert!(state
        .on_message(&PeerMessage::Request(request(0, 0, 16)))
        .is_empty());
    interested(&mut state);
    assert_eq!(
        state.on_message(&PeerMessage::Request(request(0, 0, 16))),
        [UploadAction::Read(UploadRead {
            generation: 1,
            request: request(0, 0, 16),
        })]
    );
}

#[test]
fn validates_every_request_boundary_without_overflow() {
    let mut state = UploadPeerState::new(vec![16_384, 7], vec![true, false]).expect("valid state");
    interested(&mut state);
    for invalid in [
        request(0, 0, 0),
        request(0, 0, 16_385),
        request(0, 16_384, 1),
        request(0, 16_383, 2),
        request(1, 0, 1),
        request(2, 0, 1),
        request(0, u32::MAX, 2),
    ] {
        assert_eq!(
            state.on_message(&PeerMessage::Request(invalid)),
            [UploadAction::Close(UploadCloseReason::InvalidRequest)]
        );
    }
}

#[test]
fn duplicate_requests_consume_budget_and_cancel_removes_every_match() {
    let mut state = UploadPeerState::new(vec![16_384], vec![true]).expect("valid state");
    interested(&mut state);
    let block = request(0, 0, 16_384);
    for _ in 0..MAX_QUEUED_UPLOAD_REQUESTS {
        let _ = state.on_message(&PeerMessage::Request(block));
    }
    assert_eq!(state.snapshot().queued_requests, MAX_QUEUED_UPLOAD_REQUESTS);
    assert_eq!(state.snapshot().queued_bytes, MAX_QUEUED_UPLOAD_BYTES);
    assert_eq!(
        state.on_message(&PeerMessage::Request(block)),
        [UploadAction::Close(UploadCloseReason::RequestLimit)]
    );
    state.on_message(&PeerMessage::Cancel(block));
    assert_eq!(state.snapshot().queued_requests, 1);
    assert_eq!(state.snapshot().queued_bytes, 16_384);
    let actions = state.on_read_complete(
        UploadRead {
            generation: 1,
            request: block,
        },
        Ok(vec![1; 16_384]),
    );
    assert!(actions.is_empty());
    assert_eq!(state.snapshot().queued_requests, 0);
}

#[test]
fn late_or_cancelled_reads_cannot_serialize_payload() {
    let mut state = UploadPeerState::new(vec![4], vec![true]).expect("valid state");
    interested(&mut state);
    let block = request(0, 0, 4);
    let read = match state.on_message(&PeerMessage::Request(block)).as_slice() {
        [UploadAction::Read(read)] => *read,
        actions => panic!("unexpected actions: {actions:?}"),
    };
    assert!(state
        .on_read_complete(
            UploadRead {
                generation: read.generation + 1,
                request: block,
            },
            Ok(vec![9; 4]),
        )
        .is_empty());
    state.on_message(&PeerMessage::Cancel(block));
    assert!(state.on_read_complete(read, Ok(vec![9; 4])).is_empty());
}

#[test]
fn successful_read_serializes_exact_piece_and_starts_next() {
    let mut state = UploadPeerState::new(vec![8], vec![true]).expect("valid state");
    interested(&mut state);
    let first = request(0, 0, 4);
    let second = request(0, 4, 4);
    state.on_message(&PeerMessage::Request(first));
    assert!(state.on_message(&PeerMessage::Request(second)).is_empty());
    assert_eq!(
        state.on_read_complete(
            UploadRead {
                generation: 1,
                request: first,
            },
            Ok(vec![1, 2, 3, 4]),
        ),
        [
            UploadAction::Send(PeerMessage::Piece {
                index: 0,
                begin: 0,
                block: vec![1, 2, 3, 4],
            }),
            UploadAction::Read(UploadRead {
                generation: 2,
                request: second,
            }),
        ]
    );
}

#[test]
fn read_failures_and_short_reads_close_without_payload() {
    for (result, reason) in [
        (Err(()), UploadCloseReason::ReadFailed),
        (Ok(vec![1; 3]), UploadCloseReason::ShortRead),
    ] {
        let mut state = UploadPeerState::new(vec![4], vec![true]).expect("valid state");
        interested(&mut state);
        let block = request(0, 0, 4);
        state.on_message(&PeerMessage::Request(block));
        assert_eq!(
            state.on_read_complete(
                UploadRead {
                    generation: 1,
                    request: block,
                },
                result,
            ),
            [UploadAction::Close(reason)]
        );
    }
}

#[test]
fn not_interested_chokes_clears_queue_and_suppresses_read() {
    let mut state = UploadPeerState::new(vec![8], vec![true]).expect("valid state");
    interested(&mut state);
    state.on_message(&PeerMessage::Request(request(0, 0, 4)));
    state.on_message(&PeerMessage::Request(request(0, 4, 4)));
    assert_eq!(
        state.on_message(&PeerMessage::NotInterested),
        [UploadAction::Send(PeerMessage::Choke)]
    );
    assert_eq!(state.snapshot().queued_requests, 1);
    assert!(state
        .on_read_complete(
            UploadRead {
                generation: 1,
                request: request(0, 0, 4),
            },
            Ok(vec![1; 4]),
        )
        .is_empty());
}

#[test]
fn fast_choke_precedes_rejects_and_retains_allowed_read() {
    let mut state = UploadPeerState::new(vec![4, 4], vec![true, true]).expect("valid state");
    state
        .enable_fast_extension(vec![1])
        .expect("enable Fast upload");
    interested(&mut state);
    let in_flight = request(0, 0, 4);
    let allowed = request(1, 0, 4);
    let queued = request(0, 0, 4);
    assert!(matches!(
        state.on_message(&PeerMessage::Request(in_flight)).as_slice(),
        [UploadAction::Read(_)]
    ));
    assert!(state.on_message(&PeerMessage::Request(allowed)).is_empty());
    assert!(state.on_message(&PeerMessage::Request(queued)).is_empty());

    assert_eq!(
        state.set_granted(false),
        [
            UploadAction::Send(PeerMessage::Choke),
            UploadAction::Send(PeerMessage::RejectRequest(queued)),
            UploadAction::Send(PeerMessage::RejectRequest(in_flight)),
        ]
    );
    assert_eq!(state.snapshot().queued_requests, 2);
    assert_eq!(
        state.on_read_complete(
            UploadRead {
                generation: 1,
                request: in_flight,
            },
            Ok(vec![1; 4]),
        ),
        [UploadAction::Read(UploadRead {
            generation: 2,
            request: allowed,
        })]
    );
    assert_eq!(
        state.on_read_complete(
            UploadRead {
                generation: 2,
                request: allowed,
            },
            Ok(vec![2; 4]),
        ),
        [UploadAction::Send(PeerMessage::Piece {
            index: 1,
            begin: 0,
            block: vec![2; 4],
        })]
    );
    assert_eq!(state.snapshot().queued_requests, 0);
}

#[test]
fn fast_requests_while_choked_are_rejected_unless_allowed() {
    let mut state = UploadPeerState::new(vec![4, 4], vec![true, true]).expect("valid state");
    state
        .enable_fast_extension(vec![1])
        .expect("enable Fast upload");
    assert!(state.on_message(&PeerMessage::Interested).is_empty());
    let ordinary = request(0, 0, 4);
    let allowed = request(1, 0, 4);
    assert_eq!(
        state.on_message(&PeerMessage::Request(ordinary)),
        [UploadAction::Send(PeerMessage::RejectRequest(ordinary))]
    );
    assert_eq!(
        state.on_message(&PeerMessage::Request(allowed)),
        [UploadAction::Read(UploadRead {
            generation: 1,
            request: allowed,
        })]
    );
}

#[test]
fn fast_cancel_and_read_failure_each_emit_one_terminal_response() {
    let block = request(0, 0, 4);
    let mut cancelled = UploadPeerState::new(vec![4], vec![true]).expect("valid state");
    cancelled
        .enable_fast_extension(Vec::new())
        .expect("enable Fast upload");
    interested(&mut cancelled);
    let read = match cancelled.on_message(&PeerMessage::Request(block)).as_slice() {
        [UploadAction::Read(read)] => *read,
        actions => panic!("unexpected read actions: {actions:?}"),
    };
    assert_eq!(
        cancelled.on_message(&PeerMessage::Cancel(block)),
        [UploadAction::Send(PeerMessage::RejectRequest(block))]
    );
    assert!(cancelled.on_read_complete(read, Ok(vec![1; 4])).is_empty());

    let mut failed = UploadPeerState::new(vec![4], vec![true]).expect("valid state");
    failed
        .enable_fast_extension(Vec::new())
        .expect("enable Fast upload");
    interested(&mut failed);
    let read = match failed.on_message(&PeerMessage::Request(block)).as_slice() {
        [UploadAction::Read(read)] => *read,
        actions => panic!("unexpected read actions: {actions:?}"),
    };
    assert_eq!(
        failed.on_read_complete(read, Err(())),
        [
            UploadAction::Send(PeerMessage::RejectRequest(block)),
            UploadAction::Close(UploadCloseReason::ReadFailed),
        ]
    );
}

#[test]
fn construction_rejects_mismatched_or_empty_geometry() {
    assert_eq!(
        UploadPeerState::new(vec![4, 4], vec![true]).err(),
        Some(ERR_GEOMETRY)
    );
    assert_eq!(
        UploadPeerState::new(vec![4, 0], vec![true, true]).err(),
        Some(ERR_ZERO_PIECE)
    );
    let state = UploadPeerState::new(vec![4, 4], vec![true, true]).expect("valid state");
    let snapshot = state.snapshot();
    assert!(!snapshot.interested);
    assert!(snapshot.choking);
    assert!(snapshot.read_enabled);
    assert_eq!(snapshot.queued_requests, 0);
}

#[test]
fn fast_capability_is_refused_outside_geometry_or_after_requests() {
    let mut state = UploadPeerState::new(vec![4, 4], vec![true, true]).expect("valid state");
    assert_eq!(
        state.enable_fast_extension(vec![0, 2]),
        Err(ERR_ALLOWED_OUTSIDE)
    );
    interested(&mut state);
    state.on_message(&PeerMessage::Request(request(0, 0, 4)));
    assert_eq!(
        state.enable_fast_extension(vec![0]),
        Err(ERR_FAST_AFTER_REQUESTS)
    );
}

#[test]
fn queue_byte_limit_rejects_under_fast() {
    let mut state = UploadPeerState::new(vec![16_384], vec![true]).expect("valid state");
    state.enable_fast_extension(Vec::new()).expect("enable Fast upload");
    interested(&mut state);
    let block = request(0, 0, 16_384);
    for _ in 0..MAX_QUEUED_UPLOAD_REQUESTS {
        let _ = state.on_message(&PeerMessage::Request(block));
    }
    assert_eq!(
        state.on_message(&PeerMessage::Request(block)),
        [UploadAction::Send(PeerMessage::RejectRequest(block))]
    );
    assert_eq!(state.snapshot().queued_bytes_high_water, MAX_QUEUED_UPLOAD_BYTES);
    assert_eq!(
        state.snapshot().queued_requests_high_water,
        MAX_QUEUED_UPLOAD_REQUESTS
    );
}

#[test]
fn paused_reads_resume_when_enabled() {
    let mut state = UploadPeerState::new(vec![4], vec![true]).expect("valid state");
    interested(&mut state);
    assert!(state.set_read_enabled(false).is_empty());
    assert!(state
        .on_message(&PeerMessage::Request(request(0, 0, 4)))
        .is_empty());
    assert_eq!(
        state.set_read_enabled(true),
        [UploadAction::Read(UploadRead {
            generation: 1,
            request: request(0, 0, 4),
        })]
    );
}

#[test]
fn allowed_fast_geometry_is_checked() {
    assert_eq!(
        generate_allowed_fast_set([0; 20], [1, 2, 3, 4], 0, 4),
        Err(ERR_ALLOWED_FAST_GEOMETRY)
    );
    assert_eq!(
        generate_allowed_fast_set([0; 20], [1, 2, 3, 4], 5, 0),
        Ok(Vec::new())
    );
}

#[test]
fn one_digest_adds_distinct_words_modulo_piece_count() {
    let mut digest = vec![0u8; 20];
    // Words 5, 7, 8, 256, 5 over three pieces: 2, 1, 2, 1, 2.
    digest[3] = 5;
    digest[7] = 7;
    digest[11] = 8;
    digest[14] = 1;
    digest[19] = 5;
    let mut ordered = Vec::new();
    absorb_digest(&mut ordered, &digest, 3, 10);
    assert_eq!(ordered, [2, 1]);
    let mut capped = vec![0];
    absorb_digest(&mut capped, &digest, 3, 2);
    assert_eq!(capped, [0, 2]);
}
