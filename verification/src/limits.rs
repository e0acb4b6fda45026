//! Sizes and times that both ends agree on.
use vstd::prelude::*;

verus! {

pub const TRANSPORT_PACKET_OVERHEAD: usize = 32;

/// Endpoint AEAD tag plus flags byte.
pub const ENDPOINT_MESSAGE_OVERHEAD: usize = 17;

pub const MIN_PADDING: usize = 1;

pub const MAX_TRANSPORT_PACKET_SIZE: usize = 65536;

pub const MAX_SESSION_DATA_SIZE: usize = 65535;

/// Local first-edge cooldown after send failure: 50 -> 100 -> 200 ms.
pub const LOCAL_COOLDOWN_INITIAL_MS: u64 = 50;

pub const LOCAL_COOLDOWN_MAX_MS: u64 = 200;

/// One tick beyond the inclusive maximum past freshness window.
pub const SESSION_TOMBSTONE_MS: u64 = 661_504;

/// The packet size that a channel can carry, as far as the protocol goes.
pub open spec fn transport_mtu(configured_mtu: u32) -> nat {
    if configured_mtu <= MAX_TRANSPORT_PACKET_SIZE {
        configured_mtu as nat
    } else {
        MAX_TRANSPORT_PACKET_SIZE as nat
    }
}

pub fn effective_transport_mtu(configured_mtu: u32) -> (mtu: usize)
    ensures
        mtu == transport_mtu(configured_mtu),
{
    if configured_mtu <= 65536 {
        configured_mtu as usize
    } else {
        MAX_TRANSPORT_PACKET_SIZE
    }
}

/// A tombstone outlasts every packet of its session that could still be fresh.
pub proof fn law_tombstone_outlasts_freshness()
    ensures
        SESSION_TOMBSTONE_MS == (crate::sequence::MAX_PAST_TICKS + 1) * 1024,
{
}

} // verus!
