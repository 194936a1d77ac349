use rstorrent_engine::streaming::{
    StreamingCandidate, StreamingCandidateCursor, StreamingDemandError, StreamingDemandSet,
    StreamingPieceInterval, StreamingUrgency, MAX_STREAMING_CANDIDATE_INSPECTIONS,
    MAX_STREAMING_DEMANDS,
};

fn interval(first: u32, last: u32) -> StreamingPieceInterval {
    StreamingPieceInterval::new(first, last).unwrap()
}

#[test]
fn interval_is_checked_and_uses_constant_space() {
    assert_eq!(
        StreamingPieceInterval::new(2, 1),
        Err(StreamingDemandError::InvalidInterval { first: 2, last: 1 })
    );
    let pieces = interval(0, 65_535);
    assert_eq!(pieces.piece_count(), 65_536);
    assert!(pieces.contains(42));
    assert_eq!(std::mem::size_of_val(&pieces), 8);
}

#[test]
fn demand_capacity_and_independent_removal_are_bounded() {
    let mut demands = StreamingDemandSet::default();
    let mut ids = Vec::new();
    for piece in 0..MAX_STREAMING_DEMANDS as u32 {
        ids.push(demands.insert(interval(piece, piece), None).unwrap());
    }
    assert_eq!(
        demands.insert(interval(20, 20), None),
        Err(StreamingDemandError::Capacity)
    );
    assert!(demands.remove(ids[3]));
    assert!(!demands.remove(ids[3]));
    assert_eq!(
        demands.snapshot().demands().len(),
        MAX_STREAMING_DEMANDS - 1
    );
    demands.insert(interval(20, 20), None).unwrap();
}

#[test]
fn update_and_progress_revisions_only_advance_when_state_changes() {
    let mut demands = StreamingDemandSet::default();
    let first = demands
        .insert(interval(2, 4), Some(interval(5, 6)))
        .unwrap();
    let second = demands.insert(interval(9, 10), None).unwrap();
    let revision = demands.snapshot().revision();
    demands
        .update(first, interval(2, 4), Some(interval(5, 6)))
        .unwrap();
    assert_eq!(demands.snapshot().revision(), revision);
    assert!(demands.record_progress(3));
    assert!(!demands.record_progress(8));
    let snapshot = demands.snapshot();
    assert_eq!(snapshot.demands()[0].progress_revision(), 1);
    assert_eq!(snapshot.demands()[1].progress_revision(), 0);
    demands.update(second, interval(11, 12), None).unwrap();
    assert_eq!(demands.snapshot().demands()[1].update_generation(), 1);
}

#[test]
fn cursor_is_fair_and_finishes_current_before_ahead() {
    let mut demands = StreamingDemandSet::default();
    demands
        .insert(interval(0, 2), Some(interval(20, 20)))
        .unwrap();
    demands
        .insert(interval(10, 11), Some(interval(30, 30)))
        .unwrap();
    let mut cursor = StreamingCandidateCursor::new(&demands.snapshot());
    let batch = cursor.take(7, |_| true);
    assert_eq!(
        batch.candidates,
        vec![
            StreamingCandidate {
                piece: 0,
                urgency: StreamingUrgency::Current
            },
            StreamingCandidate {
                piece: 10,
                urgency: StreamingUrgency::Current
            },
            StreamingCandidate {
                piece: 1,
                urgency: StreamingUrgency::Current
            },
            StreamingCandidate {
                piece: 11,
                urgency: StreamingUrgency::Current
            },
            StreamingCandidate {
                piece: 2,
                urgency: StreamingUrgency::Current
            },
            StreamingCandidate {
                piece: 20,
                urgency: StreamingUrgency::Ahead
            },
            StreamingCandidate {
                piece: 30,
                urgency: StreamingUrgency::Ahead
            },
        ]
    );
    assert!(batch.finished);
}

#[test]
fn cursor_deduplicates_overlap_and_bounds_tiny_piece_work() {
    let mut demands = StreamingDemandSet::default();
    demands.insert(interval(0, 65_535), None).unwrap();
    demands.insert(interval(0, 65_535), None).unwrap();
    let snapshot = demands.snapshot();
    let mut cursor = StreamingCandidateCursor::new(&snapshot);
    let batch = cursor.take(usize::MAX, |piece| piece % 2 == 0);
    assert_eq!(batch.inspected, MAX_STREAMING_CANDIDATE_INSPECTIONS);
    assert_eq!(
        batch.candidates.len(),
        MAX_STREAMING_CANDIDATE_INSPECTIONS / 4
    );
    assert!(!batch.finished);
    assert_eq!(cursor.demand_count(), 2);
}

#[test]
fn cursor_skips_ineligible_pieces_without_exceeding_budget() {
    let mut demands = StreamingDemandSet::default();
    demands.insert(interval(0, 999), None).unwrap();
    let mut cursor = StreamingCandidateCursor::new(&demands.snapshot());
    let batch = cursor.take(17, |piece| piece == 16);
    assert_eq!(batch.inspected, 17);
    assert_eq!(
        batch.candidates.as_slice(),
        &[StreamingCandidate {
            piece: 16,
            urgency: StreamingUrgency::Current,
        }]
    );
}
