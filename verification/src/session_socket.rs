//! Listen-port succession for automatic session socket allocation.
//!
//! An automatically chosen port that is already taken is retried on its
//! successor, a bounded number of times shared between TCP and UDP, and the
//! successor never wraps past the top of the port range.
use vstd::prelude::*;

verus! {

/// How many successor ports one automatic allocation may try in all.
pub const MAX_LISTEN_PORT_RETRIES: u8 = 10;

/// The lowest port a preferred or fixed listen port may name.
pub const MIN_PREFERRED_LISTEN_PORT: u16 = 1_024;

/// The transport a session socket serves.
#[derive(Clone, Copy, Debug, PartialEq, Eq, Structural)]
pub enum SessionSocketTransport {
    Tcp,
    Udp,
}

/// The next port above `port`, or `None` at the top of the range.
pub fn next_port(port: u16) -> (next: Option<u16>)
    ensures
        port < u16::MAX ==> next == Some((port + 1) as u16),
        port == u16::MAX ==> next is None,
{
    port.checked_add(1)
}

/// Takes one retry from the shared budget and names the successor of
/// `port`. Nothing is taken when the budget is spent or `port` has no
/// successor.
pub fn retry_successor(port: u16, retries: &mut u8) -> (next: Option<u16>)
    ensures
        *old(retries) > 0 && port < u16::MAX ==> next == Some((port + 1) as u16)
            && *final(retries) == *old(retries) - 1,
        !(*old(retries) > 0 && port < u16::MAX) ==> next is None && *final(retries)
            == *old(retries),
{
    if *retries == 0 {
        return None;
    }
    let successor = match next_port(port) {
        Some(successor) => successor,
        None => return None,
    };
    *retries -= 1;
    Some(successor)
}


/// A native, routable global IPv6 unicast address: inside `2000::/3`, and
/// neither documentation (`2001:db8::/32`), Teredo (`2001::/32`) nor 6to4
/// (`2002::/16`).
pub open spec fn global_ipv6(octets: Seq<u8>) -> bool {
    let global_unicast = 0x20 <= octets[0] < 0x40;
    let documentation = octets[0] == 0x20 && octets[1] == 0x01 && octets[2] == 0x0d && octets[3] == 0xb8;
    let teredo = octets[0] == 0x20 && octets[1] == 0x01 && octets[2] == 0x00 && octets[3] == 0x00;
    let six_to_four = octets[0] == 0x20 && octets[1] == 0x02;
    global_unicast && !documentation && !teredo && !six_to_four
}

/// Whether the IPv6 address, by its sixteen octets, may serve as the
/// session's global IPv6 bind address.
pub fn eligible_global_ipv6(octets: [u8; 16]) -> (eligible: bool)
    ensures
        eligible == global_ipv6(octets@),
{
    let first = octets[0];
    assert(first & 0xe0 == 0x20 <==> 0x20 <= first < 0x40) by (bit_vector);
    let global_unicast = first & 0xe0 == 0x20;
    let documentation = octets[0] == 0x20 && octets[1] == 0x01 && octets[2] == 0x0d && octets[3] == 0xb8;
    let teredo = octets[0] == 0x20 && octets[1] == 0x01 && octets[2] == 0x00 && octets[3] == 0x00;
    let six_to_four = octets[0] == 0x20 && octets[1] == 0x02;
    global_unicast && !documentation && !teredo && !six_to_four
}

} // verus!
