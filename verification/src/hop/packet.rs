//! Packets of one hop, sealed under a coarse clock.
use vstd::prelude::*;

use crate::crypto;
use crate::entropy;
use crate::hop::nonce;
use crate::hop::nonce::NonceFilter;
use crate::octets;

verus! {

pub const HEADER_SIZE: usize = 32;

pub const MAX_PACKET_SIZE: usize = 65568;

#[derive(Debug, Clone, Copy, PartialEq, Eq, Structural)]
pub enum HopPacketError {
    InvalidLength,
    NonceReuse,
    AuthFailed,
}

/// The length of a window of the clock, in milliseconds.
pub open spec fn window_len() -> int {
    0x8000
}

/// The associated data: the window of the clock that a time lies in.
pub open spec fn window_bytes(time_ms: u64) -> Seq<u8> {
    octets::le_bytes((time_ms as int / window_len()) as nat, 8)
}

/// A time in the window that is next nearest: half a window back in the first half of a
/// window, half a window on in the second. The clock wraps.
pub open spec fn other_time(time_ms: u64) -> u64 {
    if time_ms as int % window_len() < 0x4000 {
        ((time_ms - 0x4000) % 0x1_0000_0000_0000_0000) as u64
    } else {
        ((time_ms + 0x4000) % 0x1_0000_0000_0000_0000) as u64
    }
}

/// A packet: nonce, tag and ciphertext.
pub open spec fn sealed_bytes(
    nonce: Seq<u8>,
    time_ms: u64,
    key: Seq<u8>,
    payload: Seq<u8>,
) -> Seq<u8> {
    let (ciphertext, tag) = crypto::aegis_sealed(key, nonce, payload, window_bytes(time_ms));
    nonce + tag + ciphertext
}

/// What a packet opens to in the window of one time.
pub open spec fn opened_in(time_ms: u64, key: Seq<u8>, data: Seq<u8>) -> Option<Seq<u8>> {
    crypto::aegis_opened(
        key,
        data.subrange(0, 16),
        data.subrange(32, data.len() as int),
        data.subrange(16, 32),
        window_bytes(time_ms),
    )
}

/// What a packet opens to: in the window of the time, else in the other one.
pub open spec fn opened(time_ms: u64, key: Seq<u8>, data: Seq<u8>) -> Option<Seq<u8>> {
    match opened_in(time_ms, key, data) {
        Some(payload) => Some(payload),
        None => opened_in(other_time(time_ms), key, data),
    }
}

/// The packet opens to `payload` wherever the clock is at most half a window away from the
/// time at which it was sealed, unless its tag happens to match in another window too.
pub open spec fn opens_near(time_ms: u64, key: Seq<u8>, data: Seq<u8>, payload: Seq<u8>) -> bool {
    forall|other: u64|
        -0x4000 <= other - time_ms <= 0x4000 ==> (#[trigger] opened(other, key, data) == Some(
            payload,
        ) || window_bytes(other) != window_bytes(time_ms) && opened_in(other, key, data) is Some)
}

/// The window of the clock.
pub(crate) fn window_of(time_ms: u64) -> (bytes: Vec<u8>)
    ensures
        bytes@ == window_bytes(time_ms),
{
    assert(time_ms >> 15 == time_ms / 0x8000) by (bit_vector);
    let mut bytes: Vec<u8> = Vec::with_capacity(8);
    octets::put_le(&mut bytes, time_ms >> 15, 8);
    assert(bytes@ =~= window_bytes(time_ms));
    bytes
}

pub(crate) fn adjusted(time_ms: u64) -> (time: u64)
    ensures
        time == other_time(time_ms),
{
    assert((time_ms & 0x4000 == 0) == (time_ms % 0x8000 < 0x4000)) by (bit_vector);
    if time_ms & 0x4000 == 0 {
        time_ms.wrapping_sub(0x4000)
    } else {
        time_ms.wrapping_add(0x4000)
    }
}

/// Two times at most half a window apart: the one lies in the window of the other, or in the
/// other window of it.
pub proof fn law_windows_overlap(time_ms: u64, other: u64)
    requires
        -0x4000 <= other - time_ms <= 0x4000,
    ensures
        window_bytes(time_ms) == window_bytes(other) || window_bytes(time_ms) == window_bytes(
            other_time(other),
        ),
{
    let window = window_len();
    let a = time_ms as int / window;
    let b = other as int / window;
    if a != b {
        let c = other_time(other) as int / window;
        assert(a == c);
    }
}

/// A packet for a payload, with this nonce.
pub fn seal_hop_payload_with(
    nonce: &[u8; 16],
    time_ms: u64,
    key: &[u8; 16],
    payload: &[u8],
) -> (packet: Vec<u8>)
    ensures
        packet@ == sealed_bytes(nonce@, time_ms, key@, payload@),
        packet@.len() == HEADER_SIZE + payload@.len(),
        opens_near(time_ms, key@, packet@, payload@),
{
    let window: Vec<u8> = window_of(time_ms);
    let (ciphertext, tag) = crypto::aegis_encrypt(key, nonce, payload, window.as_slice());
    let mut packet: Vec<u8> = octets::array16_to_vec(nonce);
    packet.extend_from_slice(octets::array16_to_vec(&tag).as_slice());
    packet.extend_from_slice(ciphertext.as_slice());
    proof {
        assert(packet@ =~= nonce@ + tag@ + ciphertext@);
        assert(packet@.subrange(0, 16) =~= nonce@);
        assert(packet@.subrange(16, 32) =~= tag@);
        assert(packet@.subrange(32, packet@.len() as int) =~= ciphertext@);
        assert forall|other: u64| -0x4000 <= other - time_ms <= 0x4000 implies (#[trigger] opened(
            other,
            key@,
            packet@,
        ) == Some(payload@) || window_bytes(other) != window_bytes(time_ms) && opened_in(
            other,
            key@,
            packet@,
        ) is Some) by {
            law_windows_overlap(time_ms, other);
        }
    }
    packet
}

/// A packet for a payload, with a nonce that the machine has chosen at random.
pub fn seal_hop_payload(time_ms: u64, key: &[u8; 16], payload: &[u8]) -> (packet: Vec<u8>)
    ensures
        packet@ == sealed_bytes(packet@.subrange(0, 16), time_ms, key@, payload@),
        packet@.len() == HEADER_SIZE + payload@.len(),
        opens_near(time_ms, key@, packet@, payload@),
{
    let nonce: [u8; 16] = entropy::random16();
    let packet: Vec<u8> = seal_hop_payload_with(&nonce, time_ms, key, payload);
    assert(packet@.subrange(0, 16) =~= nonce@);
    packet
}

/// Opens ciphertext and tag in the window of the time, else in the other one.
pub(crate) fn open_in_windows(time_ms: u64, key: &[u8; 16], data: &[u8]) -> (payload: Option<
    Vec<u8>,
>)
    requires
        data@.len() >= HEADER_SIZE,
    ensures
        match payload {
            Some(payload) => opened(time_ms, key@, data@) == Some(payload@) && payload@.len()
                == data@.len() - HEADER_SIZE,
            None => opened(time_ms, key@, data@) is None,
        },
{
    let nonce: [u8; 16] = octets::array16_at(data, 0);
    let tag: [u8; 16] = octets::array16_at(data, 16);
    let ciphertext: Vec<u8> = octets::copy_range(data, HEADER_SIZE, data.len());
    let window: Vec<u8> = window_of(time_ms);
    match crypto::aegis_decrypt(key, &nonce, ciphertext.as_slice(), &tag, window.as_slice()) {
        Some(payload) => Some(payload),
        None => {
            let other: Vec<u8> = window_of(adjusted(time_ms));
            crypto::aegis_decrypt(key, &nonce, ciphertext.as_slice(), &tag, other.as_slice())
        },
    }
}

/// The payload of a packet. A packet of an impossible length and one that does not open are
/// refused and leave no trace; one that opens is refused where its nonce has been used.
pub fn open_hop_payload(
    time_ms: u64,
    key: &[u8; 16],
    data: &[u8],
    filter: &mut NonceFilter,
) -> (result: Result<Vec<u8>, HopPacketError>)
    ensures
        if data@.len() < HEADER_SIZE || data@.len() > MAX_PACKET_SIZE {
            result matches Err(error) && error == HopPacketError::InvalidLength && final(filter)@
                == old(filter)@
        } else if opened(time_ms, key@, data@) is None {
            result matches Err(error) && error == HopPacketError::AuthFailed && final(filter)@
                == old(filter)@
        } else {
            &&& nonce::checked(
                nonce::rotated(old(filter)@, time_ms),
                data@.subrange(0, 16),
                result is Ok,
                final(filter)@,
            )
            &&& match result {
                Ok(payload) => opened(time_ms, key@, data@) == Some(payload@),
                Err(error) => error == HopPacketError::NonceReuse,
            }
        },
{
    if data.len() < HEADER_SIZE || data.len() > MAX_PACKET_SIZE {
        return Err(HopPacketError::InvalidLength);
    }
    let payload: Vec<u8> = match open_in_windows(time_ms, key, data) {
        Some(payload) => payload,
        None => return Err(HopPacketError::AuthFailed),
    };
    let nonce: [u8; 16] = octets::array16_at(data, 0);
    let taken: bool = filter.check_and_set(time_ms, &nonce);
    if !taken {
        return Err(HopPacketError::NonceReuse);
    }
    Ok(payload)
}

} // verus!
