//! Where the fields of envelopes, frames and sealed packets stand.
use vstd::prelude::*;

use crate::crypto;
use crate::hop::machine;
use crate::hop::machine::ChannelState;
use crate::hop::nonce;
use crate::hop::nonce::NonceState;
use crate::hop::packet;
use crate::hop::wire;
use crate::hop::wire::{ChannelId, EnvelopeState, FrameState, Items, ReasonState, WireError};
use crate::octets;

verus! {

/// The two bytes from `at` on as a number, least significant one first.
pub open spec fn two_at(bytes: Seq<u8>, at: int) -> int {
    bytes[at] + 256 * bytes[at + 1]
}

/// The four bytes from `at` on as a number, least significant one first.
pub open spec fn four_at(bytes: Seq<u8>, at: int) -> int {
    two_at(bytes, at) + 65536 * two_at(bytes, at + 2)
}

/// The eight bytes from `at` on as a number, least significant one first.
pub open spec fn eight_at(bytes: Seq<u8>, at: int) -> int {
    four_at(bytes, at) + 0x1_0000_0000 * four_at(bytes, at + 4)
}

proof fn lemma_two(value: nat)
    requires
        value < 65536,
    ensures
        octets::le_bytes(value, 2).len() == 2,
        two_at(octets::le_bytes(value, 2), 0) == value,
{
    reveal_with_fuel(octets::le_bytes, 3);
}

proof fn lemma_four(value: nat)
    requires
        value < 0x1_0000_0000,
    ensures
        octets::le_bytes(value, 4).len() == 4,
        four_at(octets::le_bytes(value, 4), 0) == value,
{
    reveal_with_fuel(octets::le_bytes, 5);
}

proof fn lemma_eight(value: u64)
    ensures
        octets::le_bytes(value as nat, 8).len() == 8,
        eight_at(octets::le_bytes(value as nat, 8), 0) == value,
{
    octets::lemma_pow256_values();
    octets::lemma_le_roundtrip(value as nat, 8);
    lemma_eight_value(octets::le_bytes(value as nat, 8));
}

proof fn lemma_eight_value(bytes: Seq<u8>)
    requires
        bytes.len() == 8,
    ensures
        eight_at(bytes, 0) == octets::le_value(bytes),
{
    reveal_with_fuel(octets::le_value, 9);
}

proof fn lemma_plan_at(plan: Seq<u64>, i: int)
    requires
        0 <= i < plan.len(),
    ensures
        wire::plan_bytes(plan).len() == 8 * plan.len(),
        eight_at(wire::plan_bytes(plan), 8 * i) == plan[i],
    decreases plan.len(),
{
    let front = plan.drop_last();
    let before = wire::plan_bytes(front);
    lemma_plan_len(front);
    lemma_eight(plan.last());
    let all = wire::plan_bytes(plan);
    let last = octets::le_bytes(plan.last() as nat, 8);
    if i < front.len() {
        lemma_plan_at(front, i);
        assert forall|k: int| 0 <= k < 8 implies all[8 * i + k] == #[trigger] before[8 * i + k] by {}
        assert(all[8 * i] == before[8 * i] && all[8 * i + 1] == before[8 * i + 1] && all[8 * i + 2]
            == before[8 * i + 2] && all[8 * i + 3] == before[8 * i + 3] && all[8 * i + 4]
            == before[8 * i + 4] && all[8 * i + 5] == before[8 * i + 5] && all[8 * i + 6]
            == before[8 * i + 6] && all[8 * i + 7] == before[8 * i + 7]);
    } else {
        let at = 8 * i;
        assert(all[at] == last[0] && all[at + 1] == last[1] && all[at + 2] == last[2] && all[at + 3]
            == last[3] && all[at + 4] == last[4] && all[at + 5] == last[5] && all[at + 6] == last[6]
            && all[at + 7] == last[7]);
    }
}

proof fn lemma_plan_len(plan: Seq<u64>)
    ensures
        wire::plan_bytes(plan).len() == 8 * plan.len(),
    decreases plan.len(),
{
    if plan.len() > 0 {
        lemma_plan_len(plan.drop_last());
        lemma_eight(plan.last());
    }
}

// ---------------------------------------------------------------------------
// Envelopes and frames
// ---------------------------------------------------------------------------

/// An envelope begins with `RNE1`. From 4 the length of its route plan follows in two bytes,
/// from 6 that of its payload in four, from 10 the channels in eight bytes each, and then the
/// payload. A plan of more than 64 channels is refused, and so is a payload of more than
/// 65536 bytes.
pub proof fn law_hop_envelope_layout(e: EnvelopeState, i: int)
    ensures
        ({
            let encoded = wire::encode_envelope(e);
            let n = e.route_plan.len();
            &&& n > 64 ==> encoded == Err::<Seq<u8>, WireError>(WireError::CountOutOfBounds)
            &&& n <= 64 && e.payload.len() > 65536 ==> encoded == Err::<Seq<u8>, WireError>(
                WireError::TooLarge,
            )
            &&& n <= 64 && e.payload.len() <= 65536 ==> {
                &&& encoded matches Ok(bytes)
                &&& bytes.len() == 10 + 8 * n + e.payload.len()
                &&& bytes[0] == 82 && bytes[1] == 78 && bytes[2] == 69 && bytes[3] == 49
                &&& two_at(bytes, 4) == n
                &&& four_at(bytes, 6) == e.payload.len()
                &&& 0 <= i < n ==> eight_at(bytes, 10 + 8 * i) == e.route_plan[i]
                &&& bytes.skip(10 + 8 * n as int) == e.payload
            }
        }),
{
    let n = e.route_plan.len();
    if n <= 64 && e.payload.len() <= 65536 {
        let bytes = wire::envelope_bytes(e);
        let first = octets::le_bytes(n, 2);
        let second = octets::le_bytes(e.payload.len(), 4);
        let plan = wire::plan_bytes(e.route_plan);
        lemma_two(n);
        lemma_four(e.payload.len());
        lemma_plan_len(e.route_plan);
        assert(bytes[4] == first[0] && bytes[5] == first[1]);
        assert(bytes[6] == second[0] && bytes[7] == second[1] && bytes[8] == second[2] && bytes[9]
            == second[3]);
        if 0 <= i < n {
            lemma_plan_at(e.route_plan, i);
            let at = 10 + 8 * i;
            assert(bytes[at] == plan[8 * i] && bytes[at + 1] == plan[8 * i + 1] && bytes[at + 2]
                == plan[8 * i + 2] && bytes[at + 3] == plan[8 * i + 3] && bytes[at + 4] == plan[8
                * i + 4] && bytes[at + 5] == plan[8 * i + 5] && bytes[at + 6] == plan[8 * i + 6]
                && bytes[at + 7] == plan[8 * i + 7]);
        }
        assert(bytes.skip(10 + 8 * n as int) =~= e.payload);
    }
}

/// At `at` the length of a text or of bytes stands in four bytes, and the bytes follow.
pub open spec fn is_sized(bytes: Seq<u8>, at: int, content: Seq<u8>) -> bool {
    &&& 0 <= at
    &&& at + 4 + content.len() <= bytes.len()
    &&& four_at(bytes, at) == content.len()
    &&& bytes.subrange(at + 4, at + 4 + content.len()) == content
}

proof fn lemma_sized(before: Seq<u8>, content: Seq<u8>, after: Seq<u8>)
    requires
        content.len() < 0x1_0000_0000,
    ensures
        wire::sized(content).len() == 4 + content.len(),
        is_sized(before + wire::sized(content) + after, before.len() as int, content),
{
    lemma_four(content.len());
    let bytes = before + wire::sized(content) + after;
    let len = octets::le_bytes(content.len(), 4);
    let at = before.len() as int;
    assert(bytes[at] == len[0] && bytes[at + 1] == len[1] && bytes[at + 2] == len[2] && bytes[at
        + 3] == len[3]);
    assert(bytes.subrange(at + 4, at + 4 + content.len()) =~= content);
}

/// At `at` a reason stands: 0, 1 and 2 for a close here, a close there and a reset, and 3 for
/// an error, whose text follows.
pub open spec fn is_reason(bytes: Seq<u8>, at: int, reason: ReasonState) -> bool {
    match reason {
        ReasonState::LocalClosed => bytes.len() == at + 1 && bytes[at] == 0,
        ReasonState::RemoteClosed => bytes.len() == at + 1 && bytes[at] == 1,
        ReasonState::Reset => bytes.len() == at + 1 && bytes[at] == 2,
        ReasonState::Error { message } => bytes.len() == at + 5 + message.len() && bytes[at] == 3
            && is_sized(bytes, at + 1, message),
    }
}

proof fn lemma_reason(before: Seq<u8>, reason: ReasonState)
    requires
        wire::reason_fits(reason),
    ensures
        is_reason(before + wire::reason_bytes(reason), before.len() as int, reason),
{
    let bytes = before + wire::reason_bytes(reason);
    let at = before.len() as int;
    assert(bytes[at] == wire::reason_bytes(reason)[0]);
    if let ReasonState::Error { message } = reason {
        lemma_sized(before + seq![3u8], message, Seq::empty());
        assert(bytes =~= before + seq![3u8] + wire::sized(message) + Seq::empty());
    }
}

/// A frame begins with `RNF1` and its kind. A connection that is opened has kind 0: the host,
/// then the port and the number of the metadata in two bytes each, then the metadata. Bytes
/// have kind 1, a close and a reset 2 and 3 with the reason, and a keepalive is the kind 4
/// alone.
pub proof fn law_frame_layout(f: FrameState)
    requires
        wire::encode_frame(f) is Ok,
    ensures
        ({
            let bytes = wire::encode_frame(f)->Ok_0;
            &&& bytes.len() >= 5
            &&& bytes[0] == 82 && bytes[1] == 78 && bytes[2] == 70 && bytes[3] == 49
            &&& match f {
                FrameState::OpenConnection { host, port, metadata } => {
                    let named = 9 + host.len() as int;
                    &&& bytes[4] == 0
                    &&& is_sized(bytes, 5, host)
                    &&& two_at(bytes, named) == port
                    &&& two_at(bytes, named + 2) == metadata.len()
                    &&& bytes.skip(named + 4) == wire::items_bytes(metadata)
                },
                FrameState::ConnectionBytes { bytes: content } => {
                    &&& bytes[4] == 1
                    &&& is_sized(bytes, 5, content)
                    &&& bytes.len() == 9 + content.len()
                },
                FrameState::CloseConnection { reason } => bytes[4] == 2 && is_reason(
                    bytes,
                    5,
                    reason,
                ),
                FrameState::ResetConnection { reason } => bytes[4] == 3 && is_reason(
                    bytes,
                    5,
                    reason,
                ),
                FrameState::KeepAlive => bytes[4] == 4 && bytes.len() == 5,
            }
        }),
{
    let bytes = wire::frame_bytes(f);
    let magic = wire::frame_magic();
    let body = wire::frame_body(f);
    assert(bytes[4] == body[0]);
    match f {
        FrameState::OpenConnection { host, port, metadata } => {
            let first = octets::le_bytes(port as nat, 2);
            let second = octets::le_bytes(metadata.len(), 2);
            let items = wire::items_bytes(metadata);
            let named = 9 + host.len() as int;
            lemma_two(port as nat);
            lemma_two(metadata.len());
            lemma_sized(magic + seq![0u8], host, first + second + items);
            assert(bytes =~= magic + seq![0u8] + wire::sized(host) + (first + second + items));
            assert(bytes[named] == first[0] && bytes[named + 1] == first[1]);
            assert(bytes[named + 2] == second[0] && bytes[named + 3] == second[1]);
            assert(bytes.skip(named + 4) =~= items);
        },
        FrameState::ConnectionBytes { bytes: content } => {
            lemma_frame_content(content);
            lemma_sized(magic + seq![1u8], content, Seq::empty());
            assert(bytes =~= magic + seq![1u8] + wire::sized(content) + Seq::empty());
        },
        FrameState::CloseConnection { reason } => {
            lemma_reason(magic + seq![2u8], reason);
            assert(bytes =~= magic + seq![2u8] + wire::reason_bytes(reason));
        },
        FrameState::ResetConnection { reason } => {
            lemma_reason(magic + seq![3u8], reason);
            assert(bytes =~= magic + seq![3u8] + wire::reason_bytes(reason));
        },
        FrameState::KeepAlive => {},
    }
}

proof fn lemma_frame_content(content: Seq<u8>)
    requires
        wire::encode_frame(FrameState::ConnectionBytes { bytes: content }) is Ok,
    ensures
        content.len() < 65536,
{
    octets::lemma_le_bytes_len(content.len(), 4);
}

/// Metadata is written pair by pair, the key before the value.
pub proof fn law_metadata_layout(key: Seq<u8>, value: Seq<u8>, rest: Items)
    requires
        key.len() <= 4096,
        value.len() <= 4096,
    ensures
        wire::items_bytes(Seq::empty()) == Seq::<u8>::empty(),
        ({
            let bytes = wire::items_bytes(seq![(key, value)] + rest);
            let end = 8 + key.len() as int + value.len() as int;
            &&& is_sized(bytes, 0, key)
            &&& is_sized(bytes, 4 + key.len() as int, value)
            &&& bytes.skip(end) == wire::items_bytes(rest)
        }),
{
    let items = seq![(key, value)] + rest;
    let bytes = wire::items_bytes(items);
    let tail = wire::items_bytes(rest);
    assert(items.drop_first() =~= rest);
    assert(items[0] == (key, value));
    assert(bytes == wire::sized(key) + wire::sized(value) + tail);
    lemma_sized(Seq::empty(), key, wire::sized(value) + tail);
    assert(bytes =~= Seq::empty() + wire::sized(key) + (wire::sized(value) + tail));
    lemma_sized(wire::sized(key), value, tail);
    assert(bytes.skip(8 + key.len() as int + value.len() as int) =~= tail);
}

/// Texts of more than 4096 bytes, more than 64 pairs of metadata and frames of more than
/// 65536 bytes are refused, and nothing else is.
pub proof fn law_frame_limits(f: FrameState)
    ensures
        wire::encode_frame(f) is Ok <==> match f {
            FrameState::OpenConnection { host, metadata, .. } => {
                &&& host.len() <= 4096
                &&& metadata.len() <= 64
                &&& forall|i: int|
                    0 <= i < metadata.len() ==> (#[trigger] metadata[i]).0.len() <= 4096
                        && metadata[i].1.len() <= 4096
                &&& 13 + host.len() + wire::items_bytes(metadata).len() <= 65536
            },
            FrameState::ConnectionBytes { bytes } => 9 + bytes.len() <= 65536,
            FrameState::CloseConnection { reason: ReasonState::Error { message } } => message.len()
                <= 4096,
            FrameState::ResetConnection { reason: ReasonState::Error { message } } => message.len()
                <= 4096,
            _ => true,
        },
        f matches FrameState::OpenConnection { host, metadata, .. } ==> host.len() <= 4096
            && metadata.len() > 64 ==> wire::encode_frame(f) == Err::<Seq<u8>, WireError>(
            WireError::CountOutOfBounds,
        ),
{
    match f {
        FrameState::OpenConnection { host, port, metadata } => {
            octets::lemma_le_bytes_len(host.len(), 4);
            octets::lemma_le_bytes_len(port as nat, 2);
            octets::lemma_le_bytes_len(metadata.len(), 2);
        },
        FrameState::ConnectionBytes { bytes } => {
            octets::lemma_le_bytes_len(bytes.len(), 4);
        },
        _ => {},
    }
}

// ---------------------------------------------------------------------------
// Sealed packets and messages
// ---------------------------------------------------------------------------

/// A sealed packet holds its nonce, the tag from 16 and the ciphertext from 32. It is bound to
/// the window of the clock in which it was sealed, which is a number of eight bytes that goes
/// up every 32768 milliseconds.
pub proof fn law_sealed_packet_layout(nonce: Seq<u8>, time_ms: u64, key: Seq<u8>, payload: Seq<u8>)
    requires
        nonce.len() == 16,
        crypto::aegis_sealed(key, nonce, payload, packet::window_bytes(time_ms)).1.len() == 16,
    ensures
        ({
            let bytes = packet::sealed_bytes(nonce, time_ms, key, payload);
            let window = packet::window_bytes(time_ms);
            let (ciphertext, tag) = crypto::aegis_sealed(key, nonce, payload, window);
            &&& window.len() == 8
            &&& eight_at(window, 0) == time_ms / 32768
            &&& bytes.take(16) == nonce
            &&& bytes.subrange(16, 32) == tag
            &&& bytes.skip(32) == ciphertext
        }),
{
    let bytes = packet::sealed_bytes(nonce, time_ms, key, payload);
    let (ciphertext, tag) = crypto::aegis_sealed(
        key,
        nonce,
        payload,
        packet::window_bytes(time_ms),
    );
    lemma_eight((time_ms / 32768) as u64);
    assert(bytes.take(16) =~= nonce);
    assert(bytes.subrange(16, 32) =~= tag);
    assert(bytes.skip(32) =~= ciphertext);
}

/// A packet is opened in the window of the clock, and if it does not open there in the window
/// that is next nearest: the one before in the first half of a window, the one after in the
/// second.
pub proof fn law_packet_opens_in_two_windows(time_ms: u64, key: Seq<u8>, data: Seq<u8>)
    requires
        32768 <= time_ms <= u64::MAX - 32768,
    ensures
        ({
            let here = packet::opened_in(time_ms, key, data);
            let there = packet::opened_in(packet::other_time(time_ms), key, data);
            let window = time_ms as int / 32768;
            &&& here is Some ==> packet::opened(time_ms, key, data) == here
            &&& here is None ==> packet::opened(time_ms, key, data) == there
            &&& time_ms as int % 32768 < 16384 ==> packet::other_time(time_ms) as int / 32768
                == window - 1
            &&& time_ms as int % 32768 >= 16384 ==> packet::other_time(time_ms) as int / 32768
                == window + 1
        }),
{
}

/// A message between endpoints holds its nonce, the tag from 16 and the ciphertext from 32. It
/// is bound to `RNMSG1`, filled up with zeros to 16 bytes.
pub proof fn law_sealed_message_layout(nonce: Seq<u8>, key: Seq<u8>, segment: Seq<u8>)
    requires
        nonce.len() == 16,
        crypto::aegis_sealed(key, nonce, segment, machine::message_mark()).1.len() == 16,
    ensures
        ({
            let bytes = machine::sealed_message(nonce, key, segment);
            let mark = machine::message_mark();
            let (ciphertext, tag) = crypto::aegis_sealed(key, nonce, segment, mark);
            &&& mark.take(6) == seq![82u8, 78u8, 77u8, 83u8, 71u8, 49u8]
            &&& mark.len() == 16
            &&& forall|i: int| 6 <= i < 16 ==> #[trigger] mark[i] == 0
            &&& bytes.take(16) == nonce
            &&& bytes.subrange(16, 32) == tag
            &&& bytes.skip(32) == ciphertext
        }),
{
    let bytes = machine::sealed_message(nonce, key, segment);
    let (ciphertext, tag) = crypto::aegis_sealed(key, nonce, segment, machine::message_mark());
    assert(machine::message_mark().take(6) =~= seq![82u8, 78u8, 77u8, 83u8, 71u8, 49u8]);
    assert(bytes.take(16) =~= nonce);
    assert(bytes.subrange(16, 32) =~= tag);
    assert(bytes.skip(32) =~= ciphertext);
}

// ---------------------------------------------------------------------------
// Nonces, numbers and channels
// ---------------------------------------------------------------------------

/// The memory of nonces is turned over once a period has passed: what was current is the
/// previous part, and the current one is empty. Before that nothing happens, and after two
/// turns nothing is left.
pub proof fn law_nonces_are_forgotten(s: NonceState, time_ms: u64, later_ms: u64)
    requires
        s.last_rotate_ms <= time_ms,
        time_ms + s.rotate_every_ms <= later_ms,
    ensures
        ({
            let once = nonce::rotated(s, time_ms);
            &&& time_ms - s.last_rotate_ms < s.rotate_every_ms ==> once == s
            &&& time_ms - s.last_rotate_ms >= s.rotate_every_ms ==> {
                &&& once.previous == s.current
                &&& once.current == Set::<Seq<u8>>::empty()
                &&& once.last_rotate_ms == time_ms
                &&& once.rotate_every_ms == s.rotate_every_ms
                &&& nonce::rotated(once, later_ms).previous == Set::<Seq<u8>>::empty()
            }
        }),
{
}

/// The first conversation id is made of the first eight bytes that are derived from the seed,
/// least significant one first.
pub proof fn law_first_conversation(seed: Seq<u8>)
    requires
        crypto::blake3_derived(machine::CONV_ID_CONTEXT@, seed).len() == 32,
    ensures
        machine::first_conv_id(seed) == eight_at(
            crypto::blake3_derived("RayNet conv id counter v1"@, seed),
            0,
        ),
{
    let derived = crypto::blake3_derived(machine::CONV_ID_CONTEXT@, seed);
    lemma_eight_value(derived.take(8));
}

/// At the start every channel that is listed is up, and there are no others.
pub proof fn law_channels_start_up(ids: Seq<ChannelId>, channel_id: ChannelId)
    ensures
        machine::fresh_channels(ids).contains_key(channel_id) <==> ids.contains(channel_id),
        ids.contains(channel_id) ==> machine::fresh_channels(ids)[channel_id] == ChannelState::Up,
{
}

} // verus!
