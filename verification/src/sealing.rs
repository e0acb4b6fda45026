//! Where the parts of sealed packets and messages stand, how much padding they get, and how
//! packets that are not taken are counted.
use vstd::prelude::*;

use crate::crypto;
use crate::endpoint::model;
use crate::machine;
use crate::machine::CoreMetrics;
use crate::octets;
use crate::packet;
use crate::packet::TransportPacketError;
use crate::random;
use crate::random::RandomState;
use crate::sequence;
use crate::sequence::SequenceDrop;
use crate::wire;
use crate::wire::{EndpointMessageState, EnvelopeStamp, EnvelopeState};

verus! {

/// A packet holds its nonce, the tag from 16 and the sealed envelope from 32, bound to nothing
/// else. The nonce is made of the next 16 bytes of the random stream.
pub proof fn law_packet_layout(key: Seq<u8>, random: RandomState, e: EnvelopeState)
    requires
        crypto::aegis_sealed(
            key,
            random::next_bytes(random, 16),
            wire::encode_envelope(e),
            Seq::empty(),
        ).1.len() == 16,
    ensures
        ({
            let bytes = packet::encode_packet(key, random, e);
            let nonce = random::next_bytes(random, 16);
            let (ciphertext, tag) = crypto::aegis_sealed(
                key,
                nonce,
                wire::encode_envelope(e),
                Seq::empty(),
            );
            &&& bytes.take(16) == nonce
            &&& bytes.subrange(16, 32) == tag
            &&& bytes.skip(32) == ciphertext
        }),
{
    let bytes = packet::encode_packet(key, random, e);
    let nonce = random::next_bytes(random, 16);
    let (ciphertext, tag) = crypto::aegis_sealed(
        key,
        nonce,
        wire::encode_envelope(e),
        Seq::empty(),
    );
    assert(bytes.take(16) =~= nonce);
    assert(bytes.subrange(16, 32) =~= tag);
    assert(bytes.skip(32) =~= ciphertext);
}

/// A packet is refused for its length first, from 32 to 65536 bytes, then for its tag, and
/// then for what it holds.
pub proof fn law_packet_is_checked_in_order(key: Seq<u8>, bytes: Seq<u8>)
    ensures
        ({
            let result = packet::decode_packet(key, bytes);
            let opened = crypto::aegis_opened(
                key,
                bytes.take(16),
                bytes.skip(32),
                bytes.subrange(16, 32),
                Seq::empty(),
            );
            if !(32 <= bytes.len() <= 65536) {
                result == Err::<EnvelopeState, TransportPacketError>(
                    TransportPacketError::InvalidLength,
                )
            } else if opened is None {
                result == Err::<EnvelopeState, TransportPacketError>(
                    TransportPacketError::Authentication,
                )
            } else if wire::decode_envelope(opened->0) is None {
                result == Err::<EnvelopeState, TransportPacketError>(
                    TransportPacketError::MalformedEnvelope,
                )
            } else {
                result == Ok::<EnvelopeState, TransportPacketError>(
                    wire::decode_envelope(opened->0)->0,
                )
            }
        }),
{
    if bytes.len() >= 32 {
        assert(bytes.take(16) =~= bytes.subrange(0, 16));
    }
}

/// A message between endpoints is sealed with the stamp of its envelope as the nonce, as if
/// there were no route: its payload holds the tag and then the ciphertext.
pub proof fn law_message_is_bound_to_its_stamp(
    key: Seq<u8>,
    stamp: EnvelopeStamp,
    m: EndpointMessageState,
)
    requires
        crypto::aegis_sealed(
            key,
            wire::header_bytes(stamp, 0),
            wire::encode_endpoint(m),
            Seq::empty(),
        ).1.len() == 16,
    ensures
        ({
            let payload = model::sealed_message(key, stamp, m);
            let (ciphertext, tag) = crypto::aegis_sealed(
                key,
                wire::header_bytes(stamp, 0),
                wire::encode_endpoint(m),
                Seq::empty(),
            );
            &&& payload.take(16) == tag
            &&& payload.skip(16) == ciphertext
            &&& model::opened_message(key, stamp, payload) == crypto::aegis_opened(
                key,
                wire::header_bytes(stamp, 0),
                ciphertext,
                tag,
                Seq::empty(),
            )
        }),
{
    let payload = model::sealed_message(key, stamp, m);
    let (ciphertext, tag) = crypto::aegis_sealed(
        key,
        wire::header_bytes(stamp, 0),
        wire::encode_endpoint(m),
        Seq::empty(),
    );
    assert(payload.take(16) =~= tag);
    assert(payload.skip(16) =~= ciphertext);
}

/// A payload that is shorter than a tag opens to nothing.
pub proof fn law_short_payload_opens_to_nothing(
    key: Seq<u8>,
    stamp: EnvelopeStamp,
    payload: Seq<u8>,
)
    requires
        payload.len() < 16,
    ensures
        model::opened_message(key, stamp, payload) is None,
{
}

// ---------------------------------------------------------------------------
// Padding and random numbers
// ---------------------------------------------------------------------------

/// There is at least one byte of padding, and no more than the room there is, or 255. All
/// lengths are possible: the length differs from the random number by a multiple of how many
/// there are, and by one.
pub proof fn law_padding_fills_the_room(r: RandomState, room: int)
    requires
        room >= 1,
    ensures
        ({
            let padding = packet::random_padding(r, room) as int;
            let most = if room <= 255 {
                room
            } else {
                255
            };
            &&& 1 <= padding <= most
            &&& (random::next_u64(r) - (padding - 1)) % most == 0
        }),
{
    let most = if room <= 255 {
        room
    } else {
        255
    };
    let n = random::next_u64(r) as int;
    vstd::arithmetic::div_mod::lemma_mod_bound(n, most);
    vstd::arithmetic::div_mod::lemma_fundamental_div_mod(n, most);
    vstd::arithmetic::div_mod::lemma_mod_multiples_basic(n / most, most);
    assert(n - n % most == (n / most) * most) by (nonlinear_arith)
        requires
            n == most * (n / most) + n % most,
    ;
}

/// The next random number is made of the next eight bytes of the stream, least significant
/// one first.
pub proof fn law_random_number(r: RandomState)
    ensures
        ({
            let b = random::next_bytes(r, 8);
            random::next_u64(r) == b[0] + 0x100 * b[1] + 0x1_0000 * b[2] + 0x100_0000 * b[3]
                + 0x1_0000_0000 * b[4] + 0x100_0000_0000 * b[5] + 0x1_0000_0000_0000 * b[6]
                + 0x100_0000_0000_0000 * b[7]
        }),
{
    let b = random::next_bytes(r, 8);
    reveal_with_fuel(octets::le_value, 9);
}

/// The stream of a seed starts at its beginning, and streams for different purposes have the
/// keys that are derived for them.
pub proof fn law_streams_start(seed: Seq<u8>, domain: Seq<char>)
    ensures
        random::seeded(seed).position == 0,
        random::seeded(seed).key == crypto::blake3_hash(seed),
        random::seeded_for(seed, domain).position == 0,
        random::seeded_for(seed, domain).key == crypto::blake3_derived(domain, seed),
{
}

// ---------------------------------------------------------------------------
// Packets that are not taken
// ---------------------------------------------------------------------------

/// Nothing but this count is new, and it has gone up by one or is at its end.
pub open spec fn only_counts(
    before: CoreMetrics,
    after: CoreMetrics,
    length: bool,
    authentication: bool,
    malformed: bool,
    freshness: bool,
    replay: bool,
) -> bool {
    &&& one_more_if(length, before.packets_dropped, after.packets_dropped)
    &&& one_more_if(
        authentication,
        before.authentication_failures,
        after.authentication_failures,
    )
    &&& one_more_if(malformed, before.malformed_packets, after.malformed_packets)
    &&& one_more_if(freshness, before.freshness_drops, after.freshness_drops)
    &&& one_more_if(replay, before.replay_drops, after.replay_drops)
    &&& after.packets_received == before.packets_received
    &&& after.packets_sent == before.packets_sent
    &&& after.send_failures == before.send_failures
    &&& after.active_sessions == before.active_sessions
    &&& after.active_sequences == before.active_sequences
    &&& after.latest_seq_time == before.latest_seq_time
}

/// The count has gone up by one, if it should, and not beyond its end.
pub open spec fn one_more_if(goes_up: bool, before: u64, after: u64) -> bool {
    if goes_up && before < u64::MAX {
        after == before + 1
    } else {
        after == before
    }
}

/// A packet of the wrong length is counted as dropped, one that is not authentic as such, and
/// one that holds no envelope as malformed.
pub proof fn law_refused_packets_are_counted(m: CoreMetrics)
    ensures
        only_counts(
            m,
            machine::count_packet_error(m, TransportPacketError::InvalidLength),
            true,
            false,
            false,
            false,
            false,
        ),
        only_counts(
            m,
            machine::count_packet_error(m, TransportPacketError::Authentication),
            false,
            true,
            false,
            false,
            false,
        ),
        only_counts(
            m,
            machine::count_packet_error(m, TransportPacketError::MalformedEnvelope),
            false,
            false,
            true,
            false,
            false,
        ),
{
}

/// A packet is taken if the windows take its stamp. Otherwise it is counted as stale, or as
/// repeated.
pub proof fn law_stale_packets_are_counted(
    filter: sequence::FilterState,
    m: CoreMetrics,
    current_time: u32,
    stamp: EnvelopeStamp,
)
    ensures
        ({
            let (after, result) = sequence::check(
                filter,
                current_time,
                stamp.time,
                stamp.seq_id,
                stamp.seq_no,
            );
            let (windows, metrics, taken) = machine::checked_sequence(
                filter,
                m,
                current_time,
                stamp,
            );
            &&& windows == after
            &&& taken <==> result is Ok
            &&& only_counts(
                m,
                metrics,
                false,
                false,
                false,
                result matches Err(SequenceDrop::Freshness),
                result matches Err(SequenceDrop::Replay),
            )
        }),
{
}

/// All counts start at zero.
pub proof fn law_counts_start_at_zero()
    ensures
        ({
            let m = machine::no_metrics();
            &&& m.packets_received == 0 && m.packets_sent == 0 && m.packets_dropped == 0
            &&& m.authentication_failures == 0 && m.freshness_drops == 0 && m.replay_drops == 0
            &&& m.malformed_packets == 0 && m.send_failures == 0 && m.active_sessions == 0
            &&& m.active_sequences == 0 && m.latest_seq_time == 0
        }),
{
}

} // verus!
