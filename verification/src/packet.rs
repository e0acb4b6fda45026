//! Transport packets: a nonce, a tag and an encrypted envelope.
use vstd::prelude::*;

use crate::crypto;
use crate::limits::{MAX_TRANSPORT_PACKET_SIZE, TRANSPORT_PACKET_OVERHEAD};
use crate::octets;
use crate::random;
use crate::random::RandomStream;
use crate::wire;
use crate::wire::{Envelope, MAX_ROUTE_PLAN_LEN};

verus! {

#[derive(Debug, Clone, Copy, PartialEq, Eq, Structural)]
pub enum TransportPacketError {
    InvalidLength,
    Authentication,
    MalformedEnvelope,
}

/// The packet that carries `e` under a nonce.
pub open spec fn sealed_packet(key: Seq<u8>, nonce: Seq<u8>, e: wire::EnvelopeState) -> Seq<u8> {
    let (ciphertext, tag) = crypto::aegis_sealed(
        key,
        nonce,
        wire::encode_envelope(e),
        Seq::empty(),
    );
    nonce + tag + ciphertext
}

/// The packet that carries `e` under the next random nonce.
pub open spec fn encode_packet(
    key: Seq<u8>,
    random: random::RandomState,
    e: wire::EnvelopeState,
) -> Seq<u8> {
    sealed_packet(key, random::next_bytes(random, 16), e)
}

/// The envelope in a packet, or why there is none.
pub open spec fn decode_packet(
    key: Seq<u8>,
    packet: Seq<u8>,
) -> Result<wire::EnvelopeState, TransportPacketError> {
    if packet.len() < TRANSPORT_PACKET_OVERHEAD || packet.len() > MAX_TRANSPORT_PACKET_SIZE {
        Err(TransportPacketError::InvalidLength)
    } else {
        match crypto::aegis_opened(
            key,
            packet.subrange(0, 16),
            packet.skip(32),
            packet.subrange(16, 32),
            Seq::empty(),
        ) {
            None => Err(TransportPacketError::Authentication),
            Some(bytes) => match wire::decode_envelope(bytes) {
                None => Err(TransportPacketError::MalformedEnvelope),
                Some(e) => Ok(e),
            },
        }
    }
}

/// The padding length where `room` bytes are free.
pub open spec fn random_padding(r: random::RandomState, room: int) -> u8 {
    let available = if room <= 255 {
        room
    } else {
        255
    };
    (1 + random::next_u64(r) as int % available) as u8
}

/// Chooses a padding length that fits `room` free bytes.
pub fn choose_padding(random: &mut RandomStream, room: usize) -> (padding: u8)
    requires
        room >= 1,
    ensures
        padding == random_padding(old(random)@, room as int),
        1 <= padding <= room,
        final(random)@ == random::skip_bytes(old(random)@, 8),
{
    let available: u64 = if room <= 255 {
        room as u64
    } else {
        255
    };
    (1 + random.u64() % available) as u8
}

/// An envelope that came out of a packet of `len` bytes.
pub open spec fn envelope_within(e: wire::EnvelopeState, len: nat) -> bool {
    &&& e.route_plan.len() <= MAX_ROUTE_PLAN_LEN
    &&& e.payload.len() + 2 * e.route_plan.len() + 49 <= len <= MAX_TRANSPORT_PACKET_SIZE
}

/// Encrypts the envelope under the next random nonce. The packet opens to this very
/// envelope under the same key.
pub fn encode_transport_packet(
    key: &[u8; 16],
    random: &mut RandomStream,
    envelope: &Envelope,
) -> (packet: Vec<u8>)
    requires
        envelope@.route_plan.len() <= MAX_ROUTE_PLAN_LEN,
    ensures
        packet@ == encode_packet(key@, old(random)@, envelope@),
        final(random)@ == random::skip_bytes(old(random)@, 16),
        packet@.len() == 48 + envelope@.payload.len() + 2 * envelope@.route_plan.len()
            + envelope@.padding_len,
        wire::envelope_fits(envelope@) && packet@.len() <= MAX_TRANSPORT_PACKET_SIZE
            ==> decode_packet(key@, packet@) == Ok::<wire::EnvelopeState, TransportPacketError>(
            envelope@,
        ),
{
    let nonce_bytes = random.fill(16);
    let nonce = octets::array16_at(nonce_bytes.as_slice(), 0);
    assert(nonce@ =~= nonce_bytes@);
    let plain = envelope.encode_with_prefix(0);
    assert(plain@ =~= wire::encode_envelope(envelope@));
    let none: Vec<u8> = Vec::new();
    assert(none@ =~= Seq::empty());
    let (ciphertext, tag) = crypto::aegis_encrypt(key, &nonce, plain.as_slice(), none.as_slice());
    let mut packet: Vec<u8> = Vec::new();
    packet.extend_from_slice(nonce_bytes.as_slice());
    let tag_bytes = octets::array16_to_vec(&tag);
    packet.extend_from_slice(tag_bytes.as_slice());
    packet.extend_from_slice(ciphertext.as_slice());
    proof {
        assert(packet@ =~= nonce@ + tag@ + ciphertext@);
        wire::lemma_envelope_len(envelope@);
        assert(packet@.subrange(0, 16) =~= nonce@);
        assert(packet@.subrange(16, 32) =~= tag@);
        assert(packet@.skip(32) =~= ciphertext@);
        if wire::envelope_fits(envelope@) {
            wire::law_envelope_roundtrip(envelope@);
        }
    }
    packet
}

pub fn decode_transport_packet(
    key: &[u8; 16],
    packet: &Vec<u8>,
) -> (result: Result<Envelope, TransportPacketError>)
    ensures
        match decode_packet(key@, packet@) {
            Ok(e) => result is Ok && result->Ok_0@ == e,
            Err(error) => result == Err::<Envelope, TransportPacketError>(error),
        },
        result is Ok ==> envelope_within(result->Ok_0@, packet@.len()),
{
    if packet.len() < TRANSPORT_PACKET_OVERHEAD || packet.len() > MAX_TRANSPORT_PACKET_SIZE {
        return Err(TransportPacketError::InvalidLength);
    }
    let nonce = octets::array16_at(packet.as_slice(), 0);
    let tag = octets::array16_at(packet.as_slice(), 16);
    let ciphertext = octets::copy_range(
        packet.as_slice(),
        TRANSPORT_PACKET_OVERHEAD,
        packet.len(),
    );
    assert(ciphertext@ =~= packet@.skip(32));
    let none: Vec<u8> = Vec::new();
    assert(none@ =~= Seq::empty());
    match crypto::aegis_decrypt(key, &nonce, ciphertext.as_slice(), &tag, none.as_slice()) {
        None => Err(TransportPacketError::Authentication),
        Some(bytes) => match Envelope::decode(bytes.as_slice()) {
            Ok(envelope) => Ok(envelope),
            Err(_) => Err(TransportPacketError::MalformedEnvelope),
        },
    }
}

/// What comes out of a packet fits the envelope format.
pub proof fn lemma_opened_fits(key: Seq<u8>, packet: Seq<u8>)
    requires
        decode_packet(key, packet) is Ok,
    ensures
        wire::envelope_fits(decode_packet(key, packet)->Ok_0),
{
    let bytes = crypto::aegis_opened(
        key,
        packet.subrange(0, 16),
        packet.skip(32),
        packet.subrange(16, 32),
        Seq::empty(),
    )->0;
    wire::lemma_decoded_fits(bytes);
}

} // verus!
