//! Wire constants and byte-exact accessors for the legacy v1 framing.
//!
//! A datagram whose byte [8] is `0xff` belongs to the forward-secure v2
//! transport; anything else is legacy v1. A v1 datagram is either a packet
//! (header of 20 bytes: packet id, destination, source, flags, verb) or a
//! trailing fragment (header of 16 bytes, marked by `0xff` at byte [13],
//! where a source address can never begin with `0xff`).

use vstd::prelude::*;
use crate::address::{address_from_be_bytes, address_value_valid, Address};

verus! {

/// Sentinel at byte [8] selecting the forward-secure v2 transport.
pub const V2_SENTINEL: u8 = 0xff;

/// Marker at byte [13] of a v1 datagram that identifies a trailing fragment.
pub const FRAGMENT_INDICATOR: u8 = 0xff;

/// Maximum hop count for forwarded v1 traffic.
pub const FORWARD_MAX_HOPS: u8 = 7;

/// Size of a full v1 packet header.
pub const PACKET_HEADER_SIZE: usize = 20;

/// Size of a v1 trailing-fragment header.
pub const FRAGMENT_HEADER_SIZE: usize = 16;

/// Most fragments one v1 packet can be split into (ordinals are a nibble).
pub const FRAGMENT_COUNT_MAX: usize = 16;

/// How often root sets are checked against the root list.
pub const ROOT_SYNC_INTERVAL_MS: i64 = 1000;

/// How often roots are probed with HELLO on every declared endpoint.
pub const ROOT_HELLO_INTERVAL: i64 = 300_000;

/// Extra HELLO cadence used only while the node is offline.
pub const ROOT_HELLO_SPAM_INTERVAL: i64 = 5_000;

/// How often the peer table is swept.
pub const PEER_SERVICE_INTERVAL_MS: i64 = 10_000;

/// How often the path table is swept.
pub const PATH_SERVICE_INTERVAL_MS: i64 = 10_000;

/// How often queued WHOIS lookups are retried.
pub const WHOIS_RETRY_INTERVAL: i64 = 1000;

/// A WHOIS entry is discarded once its retry count exceeds this.
pub const WHOIS_RETRY_COUNT_MAX: u16 = 3;

/// Most packets that can wait on one unresolved address (oldest dropped).
pub const WHOIS_MAX_WAITING_PACKETS: usize = 64;

/// A peer with no reception for this long is dropped at the next sweep
/// (unless it is a root).
pub const PEER_EXPIRATION_TIME: i64 = 600_000;

/// A path with no reception for this long is classified dead.
pub const PATH_EXPIRATION_TIME: i64 = 120_000;

/// A quiet path is kept alive with a one-byte datagram at this cadence.
pub const PATH_KEEPALIVE_INTERVAL: i64 = 20_000;

/// Whether a datagram belongs to the forward-secure v2 transport.
pub open spec fn spec_is_v2(d: Seq<u8>) -> bool {
    d.len() > 8 && d[8] == V2_SENTINEL
}

/// Whether a v1 datagram is a trailing fragment.
pub open spec fn spec_is_fragment(d: Seq<u8>) -> bool {
    d.len() >= FRAGMENT_HEADER_SIZE && d[13] == FRAGMENT_INDICATOR
}

/// The reassembly key: the packet id, bytes [0, 8) read big-endian.
pub open spec fn spec_packet_id(d: Seq<u8>) -> u64
    recommends
        d.len() >= 8,
{
    (((d[0] as u64) << 56) | ((d[1] as u64) << 48) | ((d[2] as u64) << 40) | ((d[3] as u64) << 32)
        | ((d[4] as u64) << 24) | ((d[5] as u64) << 16) | ((d[6] as u64) << 8) | (d[7] as u64))
        as u64
}

/// The destination address value, bytes [8, 13) read big-endian.
pub open spec fn spec_dest_value(d: Seq<u8>) -> u64
    recommends
        d.len() >= 13,
{
    address_from_be_bytes(d.subrange(8, 13))
}

/// The source address value, bytes [13, 18) read big-endian.
pub open spec fn spec_src_value(d: Seq<u8>) -> u64
    recommends
        d.len() >= 18,
{
    address_from_be_bytes(d.subrange(13, 18))
}

/// The fragment ordinal carried at byte [14], low nibble.
pub open spec fn spec_fragment_no(d: Seq<u8>) -> u8
    recommends
        d.len() >= FRAGMENT_HEADER_SIZE,
{
    d[14] & 0x0f
}

/// The total fragment count carried at byte [14], high nibble.
pub open spec fn spec_total_fragments(d: Seq<u8>) -> u8
    recommends
        d.len() >= FRAGMENT_HEADER_SIZE,
{
    d[14] >> 4
}

/// The hop nibble of the byte at `i`.
pub open spec fn spec_hops_of(flags: u8) -> u8 {
    flags & 0x0f
}

/// Index of the byte holding the hop nibble: [15] for a trailing fragment,
/// [18] (the flags byte) for a full packet.
pub open spec fn spec_hops_index(d: Seq<u8>) -> int {
    if spec_is_fragment(d) {
        15
    } else {
        18
    }
}

/// Whether a datagram belongs to the forward-secure v2 transport.
pub fn is_v2(data: &Vec<u8>) -> (r: bool)
    ensures
        r == spec_is_v2(data@),
{
    data.len() > 8 && data[8] == V2_SENTINEL
}

/// Whether a v1 datagram is a trailing fragment.
pub fn is_fragment(data: &Vec<u8>) -> (r: bool)
    ensures
        r == spec_is_fragment(data@),
{
    data.len() >= FRAGMENT_HEADER_SIZE && data[13] == FRAGMENT_INDICATOR
}

/// Read the reassembly key (packet id).
pub fn packet_id(data: &Vec<u8>) -> (r: u64)
    requires
        data@.len() >= 8,
    ensures
        r == spec_packet_id(data@),
{
    ((data[0] as u64) << 56) | ((data[1] as u64) << 48) | ((data[2] as u64) << 40) | ((data[3]
        as u64) << 32) | ((data[4] as u64) << 24) | ((data[5] as u64) << 16) | ((data[6] as u64)
        << 8) | (data[7] as u64)
}

/// Parse the destination address; `None` if it is a reserved value.
pub fn parse_dest(data: &Vec<u8>) -> (r: Option<Address>)
    requires
        data@.len() >= 13,
    ensures
        address_value_valid(spec_dest_value(data@)) <==> (r matches Some(a) && a.value()
            == spec_dest_value(data@) && a.wf()),
        !address_value_valid(spec_dest_value(data@)) ==> r is None,
{
    let b: [u8; 5] = [data[8], data[9], data[10], data[11], data[12]];
    proof {
        assert(b@ =~= data@.subrange(8, 13));
    }
    Address::from_bytes_fixed(&b)
}

/// Parse the source address; `None` if it is a reserved value.
pub fn parse_src(data: &Vec<u8>) -> (r: Option<Address>)
    requires
        data@.len() >= 18,
    ensures
        address_value_valid(spec_src_value(data@)) <==> (r matches Some(a) && a.value()
            == spec_src_value(data@) && a.wf()),
        !address_value_valid(spec_src_value(data@)) ==> r is None,
{
    let b: [u8; 5] = [data[13], data[14], data[15], data[16], data[17]];
    proof {
        assert(b@ =~= data@.subrange(13, 18));
    }
    Address::from_bytes_fixed(&b)
}

/// Read the fragment ordinal of a trailing fragment.
pub fn fragment_no(data: &Vec<u8>) -> (r: u8)
    requires
        data@.len() >= FRAGMENT_HEADER_SIZE,
    ensures
        r == spec_fragment_no(data@),
{
    data[14] & 0x0f
}

/// Read the total fragment count of a trailing fragment.
pub fn total_fragments(data: &Vec<u8>) -> (r: u8)
    requires
        data@.len() >= FRAGMENT_HEADER_SIZE,
    ensures
        r == spec_total_fragments(data@),
{
    data[14] >> 4
}

/// Increment the hop nibble of the appropriate header byte in place and
/// return the incremented count (the stored nibble wraps at 16, but the
/// returned count does not and is what the forwarding limit is held to).
pub fn increment_hops(data: &mut Vec<u8>) -> (r: u8)
    requires
        old(data)@.len() >= PACKET_HEADER_SIZE || spec_is_fragment(old(data)@),
    ensures
        r == spec_hops_of(old(data)@[spec_hops_index(old(data)@)]) + 1,
        final(data)@ == old(data)@.update(
            spec_hops_index(old(data)@),
            (old(data)@[spec_hops_index(old(data)@)] & 0xf0) | (r & 0x0f),
        ),
        spec_is_fragment(final(data)@) == spec_is_fragment(old(data)@),
        final(data)@.len() == old(data)@.len(),
{
    let i: usize = if is_fragment(data) {
        15
    } else {
        18
    };
    let f = data[i];
    proof {
        assert(f & 0x0f <= 0x0f) by (bit_vector);
    }
    let h = (f & 0x0f) + 1;
    data[i] = (f & 0xf0) | (h & 0x0f);
    h
}

} // verus!
