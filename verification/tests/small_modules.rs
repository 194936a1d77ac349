use rstorrent_engine::session_socket::{next_port, retry_successor, MAX_LISTEN_PORT_RETRIES};
use rstorrent_engine::session_udp::SessionUdpStats;
use rstorrent_engine::storage_stage_profile::{ordered_index, permutation_multiplier, WriteOrder};

#[test]
fn automatic_successor_never_wraps() {
    assert_eq!(next_port(1_024), Some(1_025));
    assert_eq!(next_port(65_535), None);
    let mut shared = MAX_LISTEN_PORT_RETRIES;
    assert_eq!(retry_successor(6_881, &mut shared), Some(6_882));
    assert_eq!(shared, 9);
    for port in 6_882..=6_890 {
        assert_eq!(retry_successor(port, &mut shared), port.checked_add(1));
    }
    assert_eq!(shared, 0);
    assert_eq!(retry_successor(6_891, &mut shared), None);
    let mut overflow_retries = MAX_LISTEN_PORT_RETRIES;
    assert_eq!(retry_successor(65_535, &mut overflow_retries), None);
    assert_eq!(overflow_retries, MAX_LISTEN_PORT_RETRIES);
}

#[test]
fn long_lived_counters_saturate() {
    let mut stats = SessionUdpStats::default();
    stats.datagrams_received = u64::MAX - 1;
    stats.datagram_bytes_received = u64::MAX - 2;
    stats.datagrams_dropped = u64::MAX;
    stats.record_datagram(8);
    stats.record_drop();
    assert_eq!(stats.datagrams_received, u64::MAX);
    assert_eq!(stats.datagram_bytes_received, u64::MAX);
    assert_eq!(stats.datagrams_dropped, u64::MAX);
}

#[test]
fn permuted_order_visits_every_chunk_once() {
    let count = 40_960;
    let multiplier = permutation_multiplier(count);
    let mut visited = vec![false; count as usize];
    for sequence in 0..count {
        let chunk = ordered_index(sequence, count, WriteOrder::Permuted, multiplier);
        assert!(!visited[chunk as usize]);
        visited[chunk as usize] = true;
    }
    assert!(visited.into_iter().all(|value| value));
}

#[test]
fn sequential_order_preserves_chunk_indexes() {
    let count = 64;
    let multiplier = permutation_multiplier(count);
    for sequence in 0..count {
        assert_eq!(
            ordered_index(sequence, count, WriteOrder::Sequential, multiplier),
            sequence
        );
    }
}
