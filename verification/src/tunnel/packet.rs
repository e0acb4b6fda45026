//! Datagrams of the tunnel: sealed under a coarse clock, with a type.
use vstd::prelude::*;

use crate::crypto;
use crate::entropy;
use crate::hop::nonce;
use crate::hop::nonce::NonceFilter;
use crate::hop::packet as hop_packet;
use crate::octets;

verus! {

pub const HEADER_SIZE: usize = 33;

pub const MAX_PACKET_SIZE: usize = 4096;

#[derive(Debug, Clone, Copy, PartialEq, Eq, Structural)]
pub enum RayPacketType {
    DataPacket,
    StatRequest,
    StatResponse,
}

#[derive(Debug, Clone, PartialEq, Eq)]
pub struct KCPPacket {
    pub data: Vec<u8>,
}

#[derive(Debug, Clone, PartialEq, Eq)]
pub struct RayPacket {
    pub ptype: RayPacketType,
    pub kcp: KCPPacket,
}

#[derive(Debug, Clone, Copy, PartialEq, Eq, Structural)]
pub enum RayPacketError {
    BufLengthError,
    NonceReuseError,
    DecryptError,
}

pub open spec fn type_byte(ptype: RayPacketType) -> u8 {
    match ptype {
        RayPacketType::DataPacket => 0,
        RayPacketType::StatRequest => 1,
        RayPacketType::StatResponse => 2,
    }
}

impl RayPacketType {
    pub fn to_byte(self) -> (byte: u8)
        ensures
            byte == type_byte(self),
    {
        match self {
            RayPacketType::DataPacket => 0,
            RayPacketType::StatRequest => 1,
            RayPacketType::StatResponse => 2,
        }
    }

    /// The type with this byte, if there is one.
    pub fn from_byte(byte: u8) -> (ptype: Option<RayPacketType>)
        ensures
            match ptype {
                Some(ptype) => type_byte(ptype) == byte,
                None => byte > 2,
            },
    {
        match byte {
            0 => Some(RayPacketType::DataPacket),
            1 => Some(RayPacketType::StatRequest),
            2 => Some(RayPacketType::StatResponse),
            _ => None,
        }
    }
}

/// The plain bytes of a packet: its type, then its data.
pub open spec fn plain_bytes(ptype: RayPacketType, data: Seq<u8>) -> Seq<u8> {
    seq![type_byte(ptype)] + data
}

/// What decryption comes to: the checks come in the order length, nonce, tag.
pub open spec fn decrypted(
    key: Seq<u8>,
    data: Seq<u8>,
    time_ms: u64,
    fresh: bool,
) -> Result<Seq<u8>, RayPacketError> {
    if data.len() < HEADER_SIZE || data.len() > MAX_PACKET_SIZE {
        Err(RayPacketError::BufLengthError)
    } else if !fresh {
        Err(RayPacketError::NonceReuseError)
    } else {
        match hop_packet::opened(time_ms, key, data) {
            Some(plain) => Ok(plain),
            None => Err(RayPacketError::DecryptError),
        }
    }
}

/// The plain bytes of the packet name a type.
pub open spec fn has_type(key: Seq<u8>, data: Seq<u8>, time_ms: u64) -> bool {
    hop_packet::opened(time_ms, key, data) matches Some(plain) ==> plain[0] <= 2
}

impl RayPacket {
    pub fn new(ptype: RayPacketType, kcp: KCPPacket) -> (packet: Self)
        ensures
            packet.ptype == ptype,
            packet.kcp == kcp,
    {
        RayPacket { ptype, kcp }
    }

    pub open spec fn plain(&self) -> Seq<u8> {
        plain_bytes(self.ptype, self.kcp.data@)
    }

    /// The packet with these plain bytes; nothing where their first byte names no type.
    pub fn from_plain(plain: &[u8]) -> (packet: Option<RayPacket>)
        requires
            plain@.len() > 0,
        ensures
            match packet {
                Some(packet) => packet.plain() == plain@,
                None => plain@[0] > 2,
            },
    {
        match RayPacketType::from_byte(plain[0]) {
            Some(ptype) => {
                let data: Vec<u8> = octets::copy_range(plain, 1, plain.len());
                assert(plain_bytes(ptype, data@) =~= plain@);
                Some(RayPacket { ptype, kcp: KCPPacket { data } })
            },
            None => None,
        }
    }

    /// Writes the packet, sealed with this nonce, to the front of `out`, and returns its
    /// length.
    pub fn encrypt_with(
        &self,
        nonce: &[u8; 16],
        time_ms: u64,
        key: &[u8; 16],
        out: &mut Vec<u8>,
    ) -> (size: usize)
        requires
            self.kcp.data.len() + HEADER_SIZE <= old(out).len(),
        ensures
            size == self.kcp.data@.len() + HEADER_SIZE,
            final(out)@ == hop_packet::sealed_bytes(nonce@, time_ms, key@, self.plain())
                + old(out)@.skip(size as int),
            hop_packet::opens_near(
                time_ms,
                key@,
                final(out)@.take(size as int),
                self.plain(),
            ),
    {
        let mut plain: Vec<u8> = Vec::with_capacity(self.kcp.data.len() + 1);
        plain.push(self.ptype.to_byte());
        plain.extend_from_slice(self.kcp.data.as_slice());
        assert(plain@ =~= self.plain());
        let packet: Vec<u8> = hop_packet::seal_hop_payload_with(
            nonce,
            time_ms,
            key,
            plain.as_slice(),
        );
        let size: usize = packet.len();
        put_front(out, &packet);
        assert(out@.take(size as int) =~= packet@);
        size
    }

    /// Writes the packet, sealed with a nonce that the machine has chosen at random, to the
    /// front of `out`, and returns its length.
    pub fn encrypt(&self, time_ms: u64, key: &[u8; 16], out: &mut Vec<u8>) -> (size: usize)
        requires
            self.kcp.data.len() + HEADER_SIZE <= old(out).len(),
        ensures
            size == self.kcp.data@.len() + HEADER_SIZE,
            final(out)@ == hop_packet::sealed_bytes(
                final(out)@.take(16),
                time_ms,
                key@,
                self.plain(),
            ) + old(out)@.skip(size as int),
            hop_packet::opens_near(
                time_ms,
                key@,
                final(out)@.take(size as int),
                self.plain(),
            ),
    {
        let nonce: [u8; 16] = entropy::random16();
        let size: usize = self.encrypt_with(&nonce, time_ms, key, out);
        assert(out@.take(16) =~= nonce@) by {
            let (ciphertext, tag) = crypto::aegis_sealed(
                key@,
                nonce@,
                self.plain(),
                hop_packet::window_bytes(time_ms),
            );
            assert(out@ =~= nonce@ + (tag + ciphertext + old(out)@.skip(size as int)));
        }
        size
    }

    /// The packet in a datagram. The nonce is checked, and remembered, before the tag is.
    pub fn decrypt(
        key: &[u8; 16],
        data: &[u8],
        time_ms: u64,
        filter: &mut NonceFilter,
    ) -> (result: Result<Self, RayPacketError>)
        requires
            has_type(key@, data@, time_ms),
        ensures
            ({
                let sized = HEADER_SIZE <= data@.len() <= MAX_PACKET_SIZE;
                let fresh = !(result matches Err(error) && error
                    == RayPacketError::NonceReuseError);
                &&& sized ==> nonce::checked(
                    old(filter)@,
                    data@.subrange(0, 16),
                    fresh,
                    final(filter)@,
                )
                &&& !sized ==> final(filter)@ == old(filter)@
                &&& match result {
                    Ok(packet) => decrypted(key@, data@, time_ms, fresh) == Ok::<
                        Seq<u8>,
                        RayPacketError,
                    >(packet.plain()),
                    Err(error) => decrypted(key@, data@, time_ms, fresh) == Err::<
                        Seq<u8>,
                        RayPacketError,
                    >(error),
                }
            }),
    {
        match Self::decrypt_plain(key, data, time_ms, filter) {
            Ok(plain) => match Self::from_plain(plain.as_slice()) {
                Some(packet) => Ok(packet),
                None => Err(RayPacketError::DecryptError),
            },
            Err(error) => Err(error),
        }
    }

    /// As `decrypt`, for datagrams of any type: `None` where the plain bytes name no type.
    pub fn try_decrypt(
        key: &[u8; 16],
        data: &[u8],
        time_ms: u64,
        filter: &mut NonceFilter,
    ) -> (result: Option<Result<Self, RayPacketError>>)
        ensures
            ({
                let sized = HEADER_SIZE <= data@.len() <= MAX_PACKET_SIZE;
                let fresh = !(result matches Some(Err(error)) && error
                    == RayPacketError::NonceReuseError);
                &&& sized ==> nonce::checked(
                    old(filter)@,
                    data@.subrange(0, 16),
                    fresh,
                    final(filter)@,
                )
                &&& !sized ==> final(filter)@ == old(filter)@
                &&& match result {
                    Some(Ok(packet)) => decrypted(key@, data@, time_ms, fresh) == Ok::<
                        Seq<u8>,
                        RayPacketError,
                    >(packet.plain()),
                    Some(Err(error)) => decrypted(key@, data@, time_ms, fresh) == Err::<
                        Seq<u8>,
                        RayPacketError,
                    >(error),
                    None => !has_type(key@, data@, time_ms) && sized,
                }
            }),
    {
        if data.len() >= HEADER_SIZE && data.len() <= MAX_PACKET_SIZE {
            match hop_packet::open_in_windows(time_ms, key, data) {
                Some(plain) => {
                    if plain[0] > 2 {
                        let nonce: [u8; 16] = octets::array16_at(data, 0);
                        let fresh: bool = filter.check(&nonce);
                        if !fresh {
                            return Some(Err(RayPacketError::NonceReuseError));
                        }
                        return None;
                    }
                },
                None => {},
            }
            Some(Self::decrypt(key, data, time_ms, filter))
        } else {
            Some(Err(RayPacketError::BufLengthError))
        }
    }

    fn decrypt_plain(
        key: &[u8; 16],
        data: &[u8],
        time_ms: u64,
        filter: &mut NonceFilter,
    ) -> (result: Result<Vec<u8>, RayPacketError>)
        ensures
            ({
                let sized = HEADER_SIZE <= data@.len() <= MAX_PACKET_SIZE;
                let fresh = !(result matches Err(error) && error
                    == RayPacketError::NonceReuseError);
                &&& sized ==> nonce::checked(
                    old(filter)@,
                    data@.subrange(0, 16),
                    fresh,
                    final(filter)@,
                )
                &&& !sized ==> final(filter)@ == old(filter)@
                &&& match result {
                    Ok(plain) => {
                        &&& plain@.len() > 0
                        &&& hop_packet::opened(time_ms, key@, data@) == Some(plain@)
                        &&& decrypted(key@, data@, time_ms, fresh) == Ok::<
                            Seq<u8>,
                            RayPacketError,
                        >(plain@)
                    },
                    Err(error) => decrypted(key@, data@, time_ms, fresh) == Err::<
                        Seq<u8>,
                        RayPacketError,
                    >(error),
                }
            }),
    {
        if data.len() < HEADER_SIZE || data.len() > MAX_PACKET_SIZE {
            return Err(RayPacketError::BufLengthError);
        }
        let nonce: [u8; 16] = octets::array16_at(data, 0);
        if !filter.check(&nonce) {
            return Err(RayPacketError::NonceReuseError);
        }
        match hop_packet::open_in_windows(time_ms, key, data) {
            Some(plain) => Ok(plain),
            None => Err(RayPacketError::DecryptError),
        }
    }
}

/// Overwrites the front of `out`.
fn put_front(out: &mut Vec<u8>, bytes: &Vec<u8>)
    requires
        bytes@.len() <= old(out)@.len(),
    ensures
        final(out)@ == bytes@ + old(out)@.skip(bytes@.len() as int),
{
    let ghost before = out@;
    let mut i: usize = 0;
    while i < bytes.len()
        invariant
            i <= bytes@.len() <= out@.len(),
            out@ == bytes@.take(i as int) + before.skip(i as int),
            before.len() == out@.len(),
        decreases bytes@.len() - i,
    {
        out.set(i, bytes[i]);
        assert(out@ =~= bytes@.take(i + 1) + before.skip(i + 1));
        i = i + 1;
    }
    assert(bytes@.take(i as int) =~= bytes@);
}

/// A packet that was sealed opens again, with its type and its data, where the clock is at
/// most half a window away and the nonce has not been seen.
pub proof fn law_ray_packet_roundtrip(
    packet: RayPacket,
    key: Seq<u8>,
    datagram: Seq<u8>,
    sealed_ms: u64,
    opened_ms: u64,
)
    requires
        hop_packet::opens_near(sealed_ms, key, datagram, packet.plain()),
        HEADER_SIZE <= datagram.len() <= MAX_PACKET_SIZE,
        -0x4000 <= opened_ms - sealed_ms <= 0x4000,
    ensures
        decrypted(key, datagram, opened_ms, true) == Ok::<Seq<u8>, RayPacketError>(packet.plain())
            || hop_packet::window_bytes(opened_ms) != hop_packet::window_bytes(sealed_ms)
            && hop_packet::opened_in(opened_ms, key, datagram) is Some,
{
}

} // verus!
