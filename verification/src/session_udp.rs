//! Counters of the shared session UDP socket.
//!
//! Long-lived counters saturate at their maximum instead of wrapping, and
//! high-water marks only ever rise.
use vstd::prelude::*;

verus! {

/// Whether IPv4 sends on the session socket are protected from
/// fragmentation.
#[derive(Clone, Copy, Debug, PartialEq, Eq, Structural)]
pub enum Ipv4FragmentationProtectionStatus {
    Verified,
    VerificationFailed,
    UnsupportedPlatform,
}

impl Default for Ipv4FragmentationProtectionStatus {
    fn default() -> (status: Self)
        ensures
            status == Ipv4FragmentationProtectionStatus::UnsupportedPlatform,
    {
        Ipv4FragmentationProtectionStatus::UnsupportedPlatform
    }
}

/// `current + increment`, held at `u64::MAX` when it would overflow.
pub open spec fn saturated(current: u64, increment: u64) -> u64 {
    if current + increment > u64::MAX {
        u64::MAX
    } else {
        (current + increment) as u64
    }
}

/// Adds `increment` to a long-lived counter, saturating at `u64::MAX`.
pub fn saturating_add(value: &mut u64, increment: u64)
    ensures
        *final(value) == saturated(*old(value), increment),
{
    *value = value.saturating_add(increment);
}

/// A point-in-time copy of the session UDP counters.
#[derive(Clone, Copy, Debug, PartialEq, Eq, Structural)]
pub struct SessionUdpSnapshot {
    pub tasks: usize,
    pub task_high_water: usize,
    pub queued: usize,
    pub queue_high_water: usize,
    pub datagrams_received: u64,
    pub datagram_bytes_received: u64,
    pub datagrams_dropped: u64,
    pub dht_datagrams_dropped: u64,
    pub utp_queued: usize,
    pub utp_queue_high_water: usize,
    pub utp_datagrams_classified: u64,
    pub utp_datagram_bytes_classified: u64,
    pub utp_datagrams_dropped: u64,
    pub egress_waiters: usize,
    pub egress_waiter_high_water: usize,
    pub retired_egress_rejections: u64,
    pub protected_sends_attempted: u64,
    pub protected_sends_sent: u64,
    pub protected_sends_would_block: u64,
    pub protected_sends_message_too_large: u64,
    pub protected_sends_failed: u64,
    pub fragmentation_restore_failures: u64,
    pub fragmentation_repairs_requested: u64,
    pub fragmentation_repairs_succeeded: u64,
    pub fragmentation_repairs_failed: u64,
    pub maximum_datagram_bytes_sent: usize,
    pub ipv4_fragmentation_protection: Ipv4FragmentationProtectionStatus,
}

/// The counters the session UDP socket keeps while it runs.
#[derive(Debug)]
pub struct SessionUdpStats {
    pub tasks: usize,
    pub task_high_water: usize,
    pub queue_high_water: usize,
    pub utp_queue_high_water: usize,
    pub datagrams_received: u64,
    pub datagram_bytes_received: u64,
    pub datagrams_dropped: u64,
    pub dht_datagrams_dropped: u64,
    pub utp_datagrams_classified: u64,
    pub utp_datagram_bytes_classified: u64,
    pub utp_datagrams_dropped: u64,
    pub egress_waiters: usize,
    pub egress_waiter_high_water: usize,
    pub retired_egress_rejections: u64,
    pub protected_sends_attempted: u64,
    pub protected_sends_sent: u64,
    pub protected_sends_would_block: u64,
    pub protected_sends_message_too_large: u64,
    pub protected_sends_failed: u64,
    pub fragmentation_restore_failures: u64,
    pub fragmentation_repairs_requested: u64,
    pub fragmentation_repairs_succeeded: u64,
    pub fragmentation_repairs_failed: u64,
    pub maximum_datagram_bytes_sent: usize,
}

impl Default for SessionUdpStats {
    fn default() -> (stats: Self)
        ensures
            stats.is_zero(),
    {
        SessionUdpStats {
            tasks: 0,
            task_high_water: 0,
            queue_high_water: 0,
            utp_queue_high_water: 0,
            datagrams_received: 0,
            datagram_bytes_received: 0,
            datagrams_dropped: 0,
            dht_datagrams_dropped: 0,
            utp_datagrams_classified: 0,
            utp_datagram_bytes_classified: 0,
            utp_datagrams_dropped: 0,
            egress_waiters: 0,
            egress_waiter_high_water: 0,
            retired_egress_rejections: 0,
            protected_sends_attempted: 0,
            protected_sends_sent: 0,
            protected_sends_would_block: 0,
            protected_sends_message_too_large: 0,
            protected_sends_failed: 0,
            fragmentation_restore_failures: 0,
            fragmentation_repairs_requested: 0,
            fragmentation_repairs_succeeded: 0,
            fragmentation_repairs_failed: 0,
            maximum_datagram_bytes_sent: 0,
        }
    }
}

impl SessionUdpStats {
    /// Every counter and high-water mark is zero.
    pub open spec fn is_zero(&self) -> bool {
        &&& self.tasks == 0
        &&& self.task_high_water == 0
        &&& self.queue_high_water == 0
        &&& self.utp_queue_high_water == 0
        &&& self.datagrams_received == 0
        &&& self.datagram_bytes_received == 0
        &&& self.datagrams_dropped == 0
        &&& self.dht_datagrams_dropped == 0
        &&& self.utp_datagrams_classified == 0
        &&& self.utp_datagram_bytes_classified == 0
        &&& self.utp_datagrams_dropped == 0
        &&& self.egress_waiters == 0
        &&& self.egress_waiter_high_water == 0
        &&& self.retired_egress_rejections == 0
        &&& self.protected_sends_attempted == 0
        &&& self.protected_sends_sent == 0
        &&& self.protected_sends_would_block == 0
        &&& self.protected_sends_message_too_large == 0
        &&& self.protected_sends_failed == 0
        &&& self.fragmentation_restore_failures == 0
        &&& self.fragmentation_repairs_requested == 0
        &&& self.fragmentation_repairs_succeeded == 0
        &&& self.fragmentation_repairs_failed == 0
        &&& self.maximum_datagram_bytes_sent == 0
    }

    /// Copies the counters, with the two queue depths and the IPv4
    /// fragmentation status read elsewhere.
    pub fn snapshot(
        &self,
        queued: usize,
        utp_queued: usize,
        ipv4_fragmentation_protection: Ipv4FragmentationProtectionStatus,
    ) -> (snapshot: SessionUdpSnapshot)
        ensures
            snapshot == (SessionUdpSnapshot {
                tasks: self.tasks,
                task_high_water: self.task_high_water,
                queued,
                queue_high_water: self.queue_high_water,
                datagrams_received: self.datagrams_received,
                datagram_bytes_received: self.datagram_bytes_received,
                datagrams_dropped: self.datagrams_dropped,
                dht_datagrams_dropped: self.dht_datagrams_dropped,
                utp_queued,
                utp_queue_high_water: self.utp_queue_high_water,
                utp_datagrams_classified: self.utp_datagrams_classified,
                utp_datagram_bytes_classified: self.utp_datagram_bytes_classified,
                utp_datagrams_dropped: self.utp_datagrams_dropped,
                egress_waiters: self.egress_waiters,
                egress_waiter_high_water: self.egress_waiter_high_water,
                retired_egress_rejections: self.retired_egress_rejections,
                protected_sends_attempted: self.protected_sends_attempted,
                protected_sends_sent: self.protected_sends_sent,
                protected_sends_would_block: self.protected_sends_would_block,
                protected_sends_message_too_large: self.protected_sends_message_too_large,
                protected_sends_failed: self.protected_sends_failed,
                fragmentation_restore_failures: self.fragmentation_restore_failures,
                fragmentation_repairs_requested: self.fragmentation_repairs_requested,
                fragmentation_repairs_succeeded: self.fragmentation_repairs_succeeded,
                fragmentation_repairs_failed: self.fragmentation_repairs_failed,
                maximum_datagram_bytes_sent: self.maximum_datagram_bytes_sent,
                ipv4_fragmentation_protection,
            }),
    {
        SessionUdpSnapshot {
            tasks: self.tasks,
            task_high_water: self.task_high_water,
            queued,
            queue_high_water: self.queue_high_water,
            datagrams_received: self.datagrams_received,
            datagram_bytes_received: self.datagram_bytes_received,
            datagrams_dropped: self.datagrams_dropped,
            dht_datagrams_dropped: self.dht_datagrams_dropped,
            utp_queued,
            utp_queue_high_water: self.utp_queue_high_water,
            utp_datagrams_classified: self.utp_datagrams_classified,
            utp_datagram_bytes_classified: self.utp_datagram_bytes_classified,
            utp_datagrams_dropped: self.utp_datagrams_dropped,
            egress_waiters: self.egress_waiters,
            egress_waiter_high_water: self.egress_waiter_high_water,
            retired_egress_rejections: self.retired_egress_rejections,
            protected_sends_attempted: self.protected_sends_attempted,
            protected_sends_sent: self.protected_sends_sent,
            protected_sends_would_block: self.protected_sends_would_block,
            protected_sends_message_too_large: self.protected_sends_message_too_large,
            protected_sends_failed: self.protected_sends_failed,
            fragmentation_restore_failures: self.fragmentation_restore_failures,
            fragmentation_repairs_requested: self.fragmentation_repairs_requested,
            fragmentation_repairs_succeeded: self.fragmentation_repairs_succeeded,
            fragmentation_repairs_failed: self.fragmentation_repairs_failed,
            maximum_datagram_bytes_sent: self.maximum_datagram_bytes_sent,
            ipv4_fragmentation_protection,
        }
    }

    /// One more sender waits for egress; the high-water mark follows.
    pub fn record_egress_waiter_started(&mut self)
        requires
            old(self).egress_waiters < usize::MAX,
        ensures
            *final(self) == (SessionUdpStats {
                egress_waiters: (old(self).egress_waiters + 1) as usize,
                egress_waiter_high_water: if old(self).egress_waiter_high_water
                    < old(self).egress_waiters + 1 {
                    (old(self).egress_waiters + 1) as usize
                } else {
                    old(self).egress_waiter_high_water
                },
                ..*old(self)
            }),
    {
        let waiters = self.egress_waiters + 1;
        self.egress_waiters = waiters;
        if self.egress_waiter_high_water < waiters {
            self.egress_waiter_high_water = waiters;
        }
    }

    /// A waiting sender is done waiting.
    pub fn record_egress_waiter_finished(&mut self)
        requires
            old(self).egress_waiters > 0,
        ensures
            *final(self) == (SessionUdpStats {
                egress_waiters: (old(self).egress_waiters - 1) as usize,
                ..*old(self)
            }),
    {
        self.egress_waiters = self.egress_waiters - 1;
    }

    pub fn record_retired_egress_rejection(&mut self)
        ensures
            *final(self) == (SessionUdpStats {
                retired_egress_rejections: saturated(old(self).retired_egress_rejections, 1),
                ..*old(self)
            }),
    {
        saturating_add(&mut self.retired_egress_rejections, 1);
    }

    pub fn record_protected_send_attempted(&mut self)
        ensures
            *final(self) == (SessionUdpStats {
                protected_sends_attempted: saturated(old(self).protected_sends_attempted, 1),
                ..*old(self)
            }),
    {
        saturating_add(&mut self.protected_sends_attempted, 1);
    }

    /// A protected send went out with `bytes` bytes.
    pub fn record_protected_send_sent(&mut self, bytes: usize)
        ensures
            *final(self) == (SessionUdpStats {
                protected_sends_sent: saturated(old(self).protected_sends_sent, 1),
                maximum_datagram_bytes_sent: if old(self).maximum_datagram_bytes_sent < bytes {
                    bytes
                } else {
                    old(self).maximum_datagram_bytes_sent
                },
                ..*old(self)
            }),
    {
        saturating_add(&mut self.protected_sends_sent, 1);
        self.record_datagram_sent(bytes);
    }

    /// Raises the largest datagram sent so far to `bytes` where it is larger.
    pub fn record_datagram_sent(&mut self, bytes: usize)
        ensures
            *final(self) == (SessionUdpStats {
                maximum_datagram_bytes_sent: if old(self).maximum_datagram_bytes_sent < bytes {
                    bytes
                } else {
                    old(self).maximum_datagram_bytes_sent
                },
                ..*old(self)
            }),
    {
        if self.maximum_datagram_bytes_sent < bytes {
            self.maximum_datagram_bytes_sent = bytes;
        }
    }

    pub fn record_protected_send_would_block(&mut self)
        ensures
            *final(self) == (SessionUdpStats {
                protected_sends_would_block: saturated(old(self).protected_sends_would_block, 1),
                ..*old(self)
            }),
    {
        saturating_add(&mut self.protected_sends_would_block, 1);
    }

    pub fn record_protected_send_message_too_large(&mut self)
        ensures
            *final(self) == (SessionUdpStats {
                protected_sends_message_too_large: saturated(
                    old(self).protected_sends_message_too_large,
                    1,
                ),
                ..*old(self)
            }),
    {
        saturating_add(&mut self.protected_sends_message_too_large, 1);
    }

    pub fn record_protected_send_failed(&mut self)
        ensures
            *final(self) == (SessionUdpStats {
                protected_sends_failed: saturated(old(self).protected_sends_failed, 1),
                ..*old(self)
            }),
    {
        saturating_add(&mut self.protected_sends_failed, 1);
    }

    pub fn record_fragmentation_restore_failure(&mut self)
        ensures
            *final(self) == (SessionUdpStats {
                fragmentation_restore_failures: saturated(
                    old(self).fragmentation_restore_failures,
                    1,
                ),
                ..*old(self)
            }),
    {
        saturating_add(&mut self.fragmentation_restore_failures, 1);
    }

    pub fn record_fragmentation_repair_requested(&mut self)
        ensures
            *final(self) == (SessionUdpStats {
                fragmentation_repairs_requested: saturated(
                    old(self).fragmentation_repairs_requested,
                    1,
                ),
                ..*old(self)
            }),
    {
        saturating_add(&mut self.fragmentation_repairs_requested, 1);
    }

    pub fn record_fragmentation_repair_succeeded(&mut self)
        ensures
            *final(self) == (SessionUdpStats {
                fragmentation_repairs_succeeded: saturated(
                    old(self).fragmentation_repairs_succeeded,
                    1,
                ),
                ..*old(self)
            }),
    {
        saturating_add(&mut self.fragmentation_repairs_succeeded, 1);
    }

    pub fn record_fragmentation_repair_failed(&mut self)
        ensures
            *final(self) == (SessionUdpStats {
                fragmentation_repairs_failed: saturated(old(self).fragmentation_repairs_failed, 1),
                ..*old(self)
            }),
    {
        saturating_add(&mut self.fragmentation_repairs_failed, 1);
    }

    /// One datagram of `bytes` bytes arrived.
    pub fn record_datagram(&mut self, bytes: usize)
        ensures
            *final(self) == (SessionUdpStats {
                datagrams_received: saturated(old(self).datagrams_received, 1),
                datagram_bytes_received: saturated(
                    old(self).datagram_bytes_received,
                    bytes as u64,
                ),
                ..*old(self)
            }),
    {
        saturating_add(&mut self.datagrams_received, 1);
        saturating_add(&mut self.datagram_bytes_received, bytes as u64);
    }

    /// One arriving datagram was dropped.
    pub fn record_drop(&mut self)
        ensures
            *final(self) == (SessionUdpStats {
                datagrams_dropped: saturated(old(self).datagrams_dropped, 1),
                ..*old(self)
            }),
    {
        saturating_add(&mut self.datagrams_dropped, 1);
    }

    /// One datagram for the DHT was dropped; it counts as a drop too.
    pub fn record_dht_drop(&mut self)
        ensures
            *final(self) == (SessionUdpStats {
                datagrams_dropped: saturated(old(self).datagrams_dropped, 1),
                dht_datagrams_dropped: saturated(old(self).dht_datagrams_dropped, 1),
                ..*old(self)
            }),
    {
        self.record_drop();
        saturating_add(&mut self.dht_datagrams_dropped, 1);
    }

    /// One datagram of `bytes` bytes was classified as uTP.
    pub fn record_utp_datagram(&mut self, bytes: usize)
        ensures
            *final(self) == (SessionUdpStats {
                utp_datagrams_classified: saturated(old(self).utp_datagrams_classified, 1),
                utp_datagram_bytes_classified: saturated(
                    old(self).utp_datagram_bytes_classified,
                    bytes as u64,
                ),
                ..*old(self)
            }),
    {
        saturating_add(&mut self.utp_datagrams_classified, 1);
        saturating_add(&mut self.utp_datagram_bytes_classified, bytes as u64);
    }

    /// One uTP datagram was dropped; it counts as a drop too.
    pub fn record_utp_drop(&mut self)
        ensures
            *final(self) == (SessionUdpStats {
                datagrams_dropped: saturated(old(self).datagrams_dropped, 1),
                utp_datagrams_dropped: saturated(old(self).utp_datagrams_dropped, 1),
                ..*old(self)
            }),
    {
        self.record_drop();
        saturating_add(&mut self.utp_datagrams_dropped, 1);
    }
}


/// Bytes of a uTP header.
pub const UTP_HEADER_SIZE: usize = 20;

/// The uTP protocol version carried in a header's low nibble.
pub const UTP_VERSION: u8 = 1;

/// Where a received datagram goes.
#[derive(Clone, Copy, Debug, PartialEq, Eq, Structural)]
pub enum DatagramRoute {
    /// It came from the other address family: counted and dropped.
    Drop,
    /// It looks like uTP: handed to the uTP transport.
    Utp,
    /// Anything else is handed to the DHT.
    Dht,
}

/// A uTP header: long enough, version 1 in the low nibble of the first
/// byte, and a packet type of at most 4 in the high nibble.
pub open spec fn utp_shaped(bytes: Seq<u8>) -> bool {
    bytes.len() >= UTP_HEADER_SIZE && bytes[0] % 16 == UTP_VERSION && bytes[0] / 16 <= 4
}

/// Whether the datagram looks like uTP.
pub fn looks_like_utp(bytes: &[u8]) -> (utp: bool)
    ensures
        utp == utp_shaped(bytes@),
{
    if bytes.len() < UTP_HEADER_SIZE {
        return false;
    }
    let first = bytes[0];
    assert(first & 0x0f == first % 16 && first >> 4 == first / 16) by (bit_vector);
    first & 0x0f == UTP_VERSION && first >> 4 <= 4
}

/// The route of a datagram received on a socket of one family.
pub fn route_datagram(source_in_family: bool, bytes: &[u8]) -> (route: DatagramRoute)
    ensures
        route == if !source_in_family {
            DatagramRoute::Drop
        } else if utp_shaped(bytes@) {
            DatagramRoute::Utp
        } else {
            DatagramRoute::Dht
        },
{
    if !source_in_family {
        DatagramRoute::Drop
    } else if looks_like_utp(bytes) {
        DatagramRoute::Utp
    } else {
        DatagramRoute::Dht
    }
}

} // verus!
