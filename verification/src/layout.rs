//! Where the fields of envelopes and messages stand on the wire.
use vstd::prelude::*;

use crate::machine::CloseReason;
use crate::octets;
use crate::wire::{
    encode_endpoint, encode_envelope, encode_session, envelope_fits, lemma_envelope_len,
    lemma_header_len, lemma_plan_len, plan_bytes, stamp_of, time_and_route, EndpointMessageState,
    EnvelopeState, SessionMessageState,
};

verus! {

/// Where the fields of an envelope stand, each number with its least significant byte first:
/// the tick and the length of the route plan in the first four bytes, 64 plan lengths to a
/// tick, the sender from 4, the number from 10, the payload from 16, behind it the channels
/// of the route plan, two bytes each, and last the padding, every byte of which is its
/// length.
pub proof fn law_envelope_layout(e: EnvelopeState, i: int)
    requires
        envelope_fits(e),
    ensures
        ({
            let bytes = encode_envelope(e);
            let n = e.payload.len() as int;
            let plan_end = 16 + n + 2 * e.route_plan.len();
            &&& bytes.len() == plan_end + e.padding_len
            &&& bytes[0] + 256 * bytes[1] + 65536 * bytes[2] + 16777216 * bytes[3] == 64 * e.time
                + e.route_plan.len()
            &&& six_at(bytes, 4) == e.seq_id
            &&& six_at(bytes, 10) == e.seq_no
            &&& bytes.subrange(16, 16 + n) == e.payload
            &&& 0 <= i < e.route_plan.len() ==> bytes[16 + n + 2 * i] + 256 * bytes[16 + n + 2 * i
                + 1] == e.route_plan[i]
            &&& plan_end <= i < bytes.len() ==> bytes[i] == e.padding_len
        }),
{
    let bytes = encode_envelope(e);
    let n = e.payload.len() as int;
    let plan = e.route_plan;
    lemma_envelope_len(e);
    lemma_header_len(stamp_of(e), plan.len());
    lemma_plan_len(plan);
    lemma_le_four(time_and_route(e.time, plan.len()));
    lemma_le_six(e.seq_id as nat);
    lemma_le_six(e.seq_no as nat);
    assert(bytes.subrange(16, 16 + n) =~= e.payload);
    if 0 <= i < plan.len() {
        lemma_channel_at(plan, i);
        assert(bytes[16 + n + 2 * i] == plan_bytes(plan)[2 * i]);
        assert(bytes[16 + n + 2 * i + 1] == plan_bytes(plan)[2 * i + 1]);
    }
}

/// The six bytes from `at` on, least significant one first.
pub open spec fn six_at(bytes: Seq<u8>, at: int) -> int {
    bytes[at] + 256 * bytes[at + 1] + 65536 * bytes[at + 2] + 16777216 * bytes[at + 3]
        + 0x1_0000_0000 * bytes[at + 4] + 0x100_0000_0000 * bytes[at + 5]
}

proof fn lemma_le_four(value: nat)
    requires
        value <= 0xffff_ffff,
    ensures
        ({
            let b = octets::le_bytes(value, 4);
            b.len() == 4 && b[0] + 256 * b[1] + 65536 * b[2] + 16777216 * b[3] == value
        }),
{
    reveal_with_fuel(octets::le_bytes, 5);
}

proof fn lemma_le_six(value: nat)
    requires
        value < 0x1_0000_0000_0000,
    ensures
        octets::le_bytes(value, 6).len() == 6,
        six_at(octets::le_bytes(value, 6), 0) == value,
{
    reveal_with_fuel(octets::le_bytes, 7);
}

proof fn lemma_le_two(value: nat)
    requires
        value <= 0xffff,
    ensures
        ({
            let b = octets::le_bytes(value, 2);
            b.len() == 2 && b[0] + 256 * b[1] == value
        }),
{
    reveal_with_fuel(octets::le_bytes, 3);
}

proof fn lemma_channel_at(plan: Seq<u16>, i: int)
    requires
        0 <= i < plan.len(),
    ensures
        plan_bytes(plan).len() == 2 * plan.len(),
        plan_bytes(plan)[2 * i] + 256 * plan_bytes(plan)[2 * i + 1] == plan[i],
    decreases plan.len(),
{
    lemma_plan_len(plan);
    lemma_plan_len(plan.drop_last());
    lemma_le_two(plan.last() as nat);
    if i < plan.len() - 1 {
        lemma_channel_at(plan.drop_last(), i);
    }
}

/// How messages start: an endpoint message with one flag for its kind and eight times the
/// depth of its reply, a session message with 0, 1 or 2 for its kind. The rest of a packet
/// and of data follows as it is, a reply holds two numbers of six bytes, and a close holds
/// the code of its reason.
pub proof fn law_message_layout(depth: u8, packet: Seq<u8>, id: u64, no: u64, reason: CloseReason)
    requires
        depth <= 3,
        id < 0x1_0000_0000_0000,
        no < 0x1_0000_0000_0000,
    ensures
        encode_endpoint(EndpointMessageState::KcpPacket { reply_depth: depth, packet }) == seq![
            (1 + 8 * depth) as u8,
        ] + packet,
        encode_endpoint(EndpointMessageState::KeepAlive { reply_depth: depth }) == seq![
            (2 + 8 * depth) as u8,
        ],
        ({
            let bytes = encode_endpoint(
                EndpointMessageState::RouteReply {
                    reply_depth: depth,
                    received_seq_id: id,
                    received_seq_no: no,
                },
            );
            &&& bytes.len() == 13
            &&& bytes[0] == 4 + 8 * depth
            &&& six_at(bytes, 1) == id
            &&& six_at(bytes, 7) == no
        }),
        encode_session(SessionMessageState::Open) == seq![0u8],
        encode_session(SessionMessageState::Data { bytes: packet }) == seq![1u8] + packet,
        encode_session(SessionMessageState::Close { reason }) == seq![2u8, reason.code()],
{
    lemma_le_six(id as nat);
    lemma_le_six(no as nat);
}

} // verus!
