//! What an endpoint promises to its shell and to its peer.
use vstd::prelude::*;

use crate::endpoint::model;
use crate::endpoint::model::{EndpointState, Step, SEQUENCE_LIMIT};
use crate::endpoint::session;
use crate::endpoint::session::{SessionPhase, SessionState};
use crate::kcp;
use crate::kcp::arrival;
use crate::kcp::delivery;
use crate::kcp::resend;
use crate::limits::SESSION_TOMBSTONE_MS;
use crate::machine;
use crate::machine::{ActionState, CloseReason, CoreEventResult, CoreMetrics, EventState};
use crate::ordered;
use crate::packet;
use crate::random;
use crate::routing;
use crate::sequence;
use crate::wire;
use crate::wire::EnvelopeStamp;

verus! {

// ---------------------------------------------------------------------------
// Flow control
// ---------------------------------------------------------------------------

/// A write is taken whole or not at all: where the queue has no room, neither the endpoint
/// nor the actions change.
pub proof fn law_blocked_write_changes_nothing(
    st: Step,
    elapsed_ms: u64,
    conv_id: u64,
    bytes: Seq<u8>,
)
    ensures
        ({
            let (after, result) = model::event_handled(
                st,
                elapsed_ms,
                EventState::SessionWrite { conv_id, bytes },
            );
            if model::write_blocked(st.core, conv_id, bytes.len()) {
                after == st && result == CoreEventResult::SessionWriteBlocked
            } else {
                result == CoreEventResult::Handled
            }
        }),
{
}

/// The queue of a session is bounded by the send window. (A close message takes two segments
/// where a segment carries a single byte; then one segment more can wait.)
pub proof fn law_queue_is_bounded(s: EndpointState, conv_id: u64)
    requires
        model::endpoint_ok(s),
        s.sessions.contains_key(conv_id),
    ensures
        kcp::laws::pending(s.sessions[conv_id].kcp) <= s.params.kcp.send_window + 1,
        s.params.kcp.mtu >= 30 ==> kcp::laws::pending(s.sessions[conv_id].kcp)
            <= s.params.kcp.send_window,
{
    let mss = s.params.kcp.mtu - 28;
    assert(session::session_ok(s.params.kcp, conv_id, s.sessions[conv_id]));
    session::lemma_message_segments(s.params.kcp, 2);
    if mss >= 2 {
        assert(1int / mss == 0) by (nonlinear_arith)
            requires
                mss >= 2,
        ;
    }
}

// ---------------------------------------------------------------------------
// The trust boundary
// ---------------------------------------------------------------------------

/// The packet is authentic on both levels, and meant for an endpoint.
pub open spec fn authentic(s: EndpointState, bytes: Seq<u8>) -> bool {
    match packet::decode_packet(s.params.envelope_key, bytes) {
        Err(_) => false,
        Ok(e) => e.route_plan.len() == 0 && model::opened_message(
            s.params.message_key,
            wire::stamp_of(e),
            e.payload,
        ) is Some,
    }
}

/// The stamp of an authentic packet.
pub open spec fn stamp_in(s: EndpointState, bytes: Seq<u8>) -> EnvelopeStamp {
    wire::stamp_of(packet::decode_packet(s.params.envelope_key, bytes)->Ok_0)
}

/// A packet that is not authentic, or is stale or replayed, creates no state and causes no
/// action: all that it leaves behind is a count in the metrics.
pub proof fn law_refused_packet_leaves_no_trace(
    st: Step,
    elapsed_ms: u64,
    channel_id: u16,
    bytes: Seq<u8>,
)
    requires
        !authentic(st.core, bytes) || !model::admitted(
            st.core,
            elapsed_ms,
            stamp_in(st.core, bytes),
        ).1,
    ensures
        ({
            let (after, result) = model::event_handled(
                st,
                elapsed_ms,
                EventState::TransportPacketReceived { channel_id, bytes },
            );
            &&& result == CoreEventResult::Handled
            &&& after.actions == st.actions
            &&& after.core == (EndpointState { metrics: after.core.metrics, ..st.core })
        }),
{
    reveal(model::packet_received);
}

// ---------------------------------------------------------------------------
// Feedback
// ---------------------------------------------------------------------------

/// A chain of answers ends: an answer asks for nothing, or lies one deeper than what it
/// answers, and none lies deeper than 3.
pub proof fn law_feedback_chain_ends(
    s: EndpointState,
    elapsed_ms: u64,
    stamp: EnvelopeStamp,
    reply_depth: u8,
)
    requires
        reply_depth <= 3,
    ensures
        ({
            let depth = wire::reply_depth_of(model::reply_to(s, elapsed_ms, stamp, reply_depth));
            &&& depth <= 3
            &&& depth == 0 || depth == reply_depth + 1
            &&& reply_depth == 3 ==> depth == 0
        }),
{
}

/// After a sample has gone out, the next one waits for the interval at least.
pub proof fn law_samples_are_spaced(
    st: Step,
    elapsed_ms: u64,
    stamp: EnvelopeStamp,
    payload: Seq<u8>,
)
    requires
        st.core.params.feedback_interval_ms > 0,
    ensures
        ({
            let after = model::envelope_sent(st, elapsed_ms, stamp, payload, true);
            after.actions.len() > st.actions.len() ==> {
                &&& after.core.outstanding.contains_key((stamp.seq_id, stamp.seq_no))
                &&& after.core.next_feedback_at >= model::later(
                    elapsed_ms,
                    st.core.params.feedback_interval_ms as int,
                )
            }
        }),
{
    reveal(model::envelope_sent);
}

/// A reply to a packet that is not under way as a sample changes nothing: replies to unknown
/// packets, repeated ones and late ones are ignored.
pub proof fn law_unknown_reply_is_ignored(
    st: Step,
    elapsed_ms: u64,
    stamp: EnvelopeStamp,
    reply_depth: u8,
    received_seq_id: u64,
    received_seq_no: u64,
)
    ensures
        ({
            let m = wire::EndpointMessageState::RouteReply {
                reply_depth,
                received_seq_id,
                received_seq_no,
            };
            let once = model::message_handled(st, elapsed_ms, stamp, m);
            &&& !st.core.outstanding.contains_key((received_seq_id, received_seq_no)) ==> once == st
            &&& model::message_handled(once, elapsed_ms, stamp, m) == once
        }),
{
    reveal(model::message_handled);
}

/// A sample that did not leave the node is not charged: it goes out again as a sample, or the
/// next packet is one.
pub proof fn law_refused_sample_is_taken_again(
    st: Step,
    elapsed_ms: u64,
    channel_id: u16,
    bytes: Seq<u8>,
)
    requires
        ({
            let e = packet::decode_packet(st.core.params.envelope_key, bytes)->Ok_0;
            st.core.outstanding.contains_key((e.seq_id, e.seq_no))
        }),
    ensures
        ({
            let e = packet::decode_packet(st.core.params.envelope_key, bytes)->Ok_0;
            let after = model::event_handled(
                st,
                elapsed_ms,
                EventState::TransportPacketSendFailed { channel_id, bytes },
            ).0;
            if after.actions.len() > st.actions.len() {
                after.core.outstanding.contains_key((e.seq_id, e.seq_no))
            } else {
                &&& !after.core.outstanding.contains_key((e.seq_id, e.seq_no))
                &&& model::feedback_due(after.core, elapsed_ms)
            }
        }),
{
    reveal(model::send_refused);
    reveal(model::envelope_sent);
}

// ---------------------------------------------------------------------------
// Rerouting
// ---------------------------------------------------------------------------

/// The packet in a refused envelope, if it is one of KCP.
pub open spec fn refused_kcp(s: EndpointState, bytes: Seq<u8>) -> bool {
    let e = packet::decode_packet(s.params.envelope_key, bytes)->Ok_0;
    let plain = model::opened_message(s.params.message_key, wire::stamp_of(e), e.payload)->0;
    wire::decode_endpoint(plain)->0 is KcpPacket
}

/// The action that sends an envelope on a channel.
pub open spec fn resent(
    s: EndpointState,
    channel_id: u16,
    random: random::RandomState,
    e: wire::EnvelopeState,
) -> ActionState {
    ActionState::SendTransportPacket {
        channel_id,
        bytes: packet::encode_packet(s.params.envelope_key, random, e),
    }
}

/// A KCP packet that a channel refused goes out again, under the same number and with the
/// same payload, on another channel, as long as there is a route that avoids the refusing
/// one. Any other packet is given up. No session changes.
pub proof fn law_refused_packet_is_rerouted(
    st: Step,
    elapsed_ms: u64,
    channel_id: u16,
    bytes: Seq<u8>,
)
    requires
        model::endpoint_ok(st.core),
        model::refused_acceptable(st.core, channel_id, bytes),
        elapsed_ms < u64::MAX,
    ensures
        ({
            let s = st.core;
            let e = packet::decode_packet(s.params.envelope_key, bytes)->Ok_0;
            let after = model::event_handled(
                st,
                elapsed_ms,
                EventState::TransportPacketSendFailed { channel_id, bytes },
            ).0;
            let plan = routing::planned(
                routing::send_failed(s.planner, channel_id, elapsed_ms),
                elapsed_ms,
                (e.payload.len() + s.params.scheduled_packet_overhead) as usize,
                s.outstanding.contains_key((e.seq_id, e.seq_no)),
            ).1;
            &&& after.core.sessions == s.sessions
            &&& if refused_kcp(s, bytes) && plan is Some {
                exists|again: wire::EnvelopeState, channel: u16, random: random::RandomState|
                    {
                        &&& channel != channel_id
                        &&& routing::has_channel(s.planner[0], channel)
                        &&& wire::stamp_of(again) == wire::stamp_of(e)
                        &&& again.payload == e.payload
                        &&& after.actions == st.actions.push(
                            #[trigger] resent(s, channel, random, again),
                        )
                    }
            } else {
                after.actions == st.actions
            }
        }),
{
    reveal(model::send_refused);
    reveal(model::envelope_sent);
    let s = st.core;
    let e = packet::decode_packet(s.params.envelope_key, bytes)->Ok_0;
    let rested = routing::send_failed(s.planner, channel_id, elapsed_ms);
    let scheduled = (e.payload.len() + s.params.scheduled_packet_overhead) as usize;
    let was_sample = s.outstanding.contains_key((e.seq_id, e.seq_no));
    let plan = routing::planned(rested, elapsed_ms, scheduled, was_sample).1;
    let after = model::event_handled(
        st,
        elapsed_ms,
        EventState::TransportPacketSendFailed { channel_id, bytes },
    ).0;
    routing::lemma_position(s.planner[0], channel_id);
    routing::law_failed_channel_is_avoided(
        s.planner,
        channel_id,
        elapsed_ms,
        elapsed_ms,
        scheduled,
        was_sample,
    );
    if refused_kcp(s, bytes) && plan is Some {
        let full = plan->0;
        routing::lemma_send_failed(s.planner, channel_id, elapsed_ms);
        routing::law_plan_is_walkable(rested, elapsed_ms, scheduled, was_sample);
        reveal_with_fuel(routing::walkable, 2);
        assert(routing::has_channel(rested[0], full[0]));
        let k = choose|k: int|
            0 <= k < rested[0].len() && (#[trigger] rested[0][k]).channel_id == full[0];
        assert(s.planner[0][k].channel_id == full[0]);
        let again = wire::EnvelopeState {
            time: e.time,
            seq_id: e.seq_id,
            seq_no: e.seq_no,
            route_plan: full.drop_first(),
            payload: e.payload,
            padding_len: packet::random_padding(
                s.random,
                s.params.mtu - model::unpadded_len(full.len(), e.payload.len()),
            ),
        };
        assert(after.actions == st.actions.push(
            resent(s, full[0], random::skip_bytes(s.random, 8), again),
        ));
    }
}

/// A refusal rests the channel, and causes no action but, at most, one packet on a channel
/// that takes packets.
pub proof fn law_refusal_rests_the_channel(
    st: Step,
    elapsed_ms: u64,
    channel_id: u16,
    bytes: Seq<u8>,
)
    requires
        model::endpoint_ok(st.core),
        model::refused_acceptable(st.core, channel_id, bytes),
        elapsed_ms < u64::MAX,
    ensures
        ({
            let after = model::event_handled(
                st,
                elapsed_ms,
                EventState::TransportPacketSendFailed { channel_id, bytes },
            ).0;
            &&& routing::rests(st.core.planner, after.core.planner, channel_id, elapsed_ms)
            &&& after.actions == st.actions || {
                &&& after.actions == st.actions.push(after.actions.last())
                &&& after.actions.last() matches ActionState::SendTransportPacket {
                    channel_id: other,
                    ..
                }
                &&& routing::open_channel(after.core.planner, elapsed_ms, other)
            }
        }),
{
    reveal(model::send_refused);
    reveal(model::envelope_sent);
    let s = st.core;
    let e = packet::decode_packet(s.params.envelope_key, bytes)->Ok_0;
    let scheduled = (e.payload.len() + s.params.scheduled_packet_overhead) as usize;
    let was_sample = s.outstanding.contains_key((e.seq_id, e.seq_no));
    let rested = routing::send_failed(s.planner, channel_id, elapsed_ms);
    routing::lemma_failed_channel_rests(s.planner, channel_id, elapsed_ms, scheduled, was_sample);
    if routing::planned(rested, elapsed_ms, scheduled, was_sample).1 is Some {
        routing::lemma_send_failed(s.planner, channel_id, elapsed_ms);
        routing::law_plan_is_walkable(rested, elapsed_ms, scheduled, was_sample);
    }
}

// ---------------------------------------------------------------------------
// Packet numbers
// ---------------------------------------------------------------------------

/// The packets of an endpoint are numbered one by one under one sender id, until the numbers
/// are used up.
pub proof fn law_packets_are_numbered(s: EndpointState, now: u64, then: u64)
    requires
        s.next_seq_no + 1 < SEQUENCE_LIMIT,
    ensures
        ({
            let first = model::next_stamp(s, now);
            let second = model::next_stamp(model::numbered(s), then);
            &&& first.seq_id == second.seq_id == s.seq_id
            &&& second.seq_no == first.seq_no + 1
        }),
{
}

/// No two packets of an endpoint are sealed under the same nonce, until the numbers are used
/// up.
pub proof fn law_nonces_differ(s: EndpointState, now: u64, then: u64)
    requires
        model::endpoint_ok(s),
        s.next_seq_no + 1 < SEQUENCE_LIMIT,
    ensures
        wire::header_bytes(model::next_stamp(s, now), 0) != wire::header_bytes(
            model::next_stamp(model::numbered(s), then),
            0,
        ),
{
    law_packets_are_numbered(s, now, then);
    let first = model::next_stamp(s, now);
    let second = model::next_stamp(model::numbered(s), then);
    if wire::header_bytes(first, 0) == wire::header_bytes(second, 0) {
        wire::law_nonce_is_unique(first, second);
    }
}

/// Sessions that are opened one after the other get different ids.
pub proof fn law_session_ids_count_up(st: Step, elapsed_ms: u64)
    ensures
        ({
            let (after, result) = model::event_handled(st, elapsed_ms, EventState::SessionOpen);
            &&& result == CoreEventResult::SessionCreated { conv_id: st.core.next_conv_id }
            &&& after.core.next_conv_id == st.core.next_conv_id.wrapping_add(1)
            &&& after.core.next_conv_id != st.core.next_conv_id
        }),
{
    reveal(model::session_sent);
    let s = st.core;
    let conv = s.next_conv_id;
    let opened = model::put_session(
        EndpointState { next_conv_id: conv.wrapping_add(1), ..s },
        conv,
        session::new_session(conv, s.params.kcp, SessionPhase::Open),
    );
    lemma_session_sent_scope(
        model::with_core(st, opened),
        elapsed_ms,
        conv,
        wire::SessionMessageState::Open,
    );
}

// ---------------------------------------------------------------------------
// Sessions are independent
// ---------------------------------------------------------------------------

/// The action concerns the session, or no session at all.
pub open spec fn concerns(action: ActionState, conv: u64) -> bool {
    match action {
        ActionState::SendTransportPacket { .. } => true,
        ActionState::OpenSession { conv_id } => conv_id == conv,
        ActionState::WriteSession { conv_id, .. } => conv_id == conv,
        ActionState::CloseSession { conv_id, .. } => conv_id == conv,
    }
}

/// The actions of the first step, and then some that concern the session.
pub open spec fn acts_within(
    before: Seq<ActionState>,
    after: Seq<ActionState>,
    conv: u64,
) -> bool {
    &&& before.len() <= after.len()
    &&& after.take(before.len() as int) == before
    &&& forall|i: int| before.len() <= i < after.len() ==> concerns(#[trigger] after[i], conv)
}

/// Nothing has happened but sending packets.
pub open spec fn only_sent(st: Step, t: Step) -> bool {
    &&& t.core.params == st.core.params
    &&& t.core.filter == st.core.filter
    &&& t.core.next_conv_id == st.core.next_conv_id
    &&& t.core.sessions == st.core.sessions
    &&& t.core.tombstones == st.core.tombstones
    &&& st.actions.len() <= t.actions.len()
    &&& t.actions.take(st.actions.len() as int) == st.actions
    &&& forall|i: int|
        st.actions.len() <= i < t.actions.len() ==> (
        #[trigger] t.actions[i]) is SendTransportPacket
}

/// No session has changed but this one, which has not been created, and is bound to the
/// sender that it was bound to.
pub open spec fn within_session(st: Step, t: Step, conv: u64) -> bool {
    &&& t.core.params == st.core.params
    &&& t.core.filter == st.core.filter
    &&& t.core.next_conv_id == st.core.next_conv_id
    &&& t.core.sessions.remove(conv) == st.core.sessions.remove(conv)
    &&& t.core.tombstones.remove(conv) == st.core.tombstones.remove(conv)
    &&& st.core.tombstones.contains_key(conv) ==> t.core.tombstones.contains_key(conv)
    &&& t.core.sessions.contains_key(conv) ==> {
        &&& st.core.sessions.contains_key(conv)
        &&& t.core.sessions[conv].peer_seq == st.core.sessions[conv].peer_seq
    }
    &&& acts_within(st.actions, t.actions, conv)
}

proof fn lemma_only_sent_trans(a: Step, b: Step, c: Step)
    requires
        only_sent(a, b),
        only_sent(b, c),
    ensures
        only_sent(a, c),
{
    let n = a.actions.len() as int;
    assert(c.actions.take(n) =~= b.actions.take(n)) by {
        assert(c.actions.take(n) =~= c.actions.take(b.actions.len() as int).take(n));
    }
    assert forall|i: int| n <= i < c.actions.len() implies (
    #[trigger] c.actions[i]) is SendTransportPacket by {
        if i < b.actions.len() {
            assert(c.actions.take(b.actions.len() as int)[i] == b.actions[i]);
        }
    }
}

proof fn lemma_acts_within_trans(
    a: Seq<ActionState>,
    b: Seq<ActionState>,
    c: Seq<ActionState>,
    conv: u64,
)
    requires
        acts_within(a, b, conv),
        acts_within(b, c, conv),
    ensures
        acts_within(a, c, conv),
{
    let n = a.len() as int;
    assert(c.take(n) =~= b.take(n)) by {
        assert(c.take(n) =~= c.take(b.len() as int).take(n));
    }
    assert forall|i: int| n <= i < c.len() implies concerns(#[trigger] c[i], conv) by {
        if i < b.len() {
            assert(c.take(b.len() as int)[i] == b[i]);
        }
    }
}

proof fn lemma_within_trans(a: Step, b: Step, c: Step, conv: u64)
    requires
        within_session(a, b, conv),
        within_session(b, c, conv),
    ensures
        within_session(a, c, conv),
{
    lemma_acts_within_trans(a.actions, b.actions, c.actions, conv);
}

proof fn lemma_only_sent_within(a: Step, b: Step, conv: u64)
    requires
        only_sent(a, b),
    ensures
        within_session(a, b, conv),
{
}

proof fn lemma_envelope_sent_scope(
    st: Step,
    elapsed_ms: u64,
    stamp: EnvelopeStamp,
    payload: Seq<u8>,
    sample: bool,
)
    ensures
        only_sent(st, model::envelope_sent(st, elapsed_ms, stamp, payload, sample)),
{
    reveal(model::envelope_sent);
    let t = model::envelope_sent(st, elapsed_ms, stamp, payload, sample);
    assert(t.actions.take(st.actions.len() as int) =~= st.actions);
}

pub proof fn lemma_message_sent_scope(
    st: Step,
    elapsed_ms: u64,
    m: wire::EndpointMessageState,
    sample: bool,
)
    ensures
        only_sent(st, model::message_sent(st, elapsed_ms, m, sample)),
{
    reveal(model::message_sent);
    let stamp = model::next_stamp(st.core, elapsed_ms);
    lemma_envelope_sent_scope(
        model::with_core(st, model::numbered(st.core)),
        elapsed_ms,
        stamp,
        model::sealed_message(st.core.params.message_key, stamp, m),
        sample,
    );
}

proof fn lemma_packets_sent_scope(st: Step, elapsed_ms: u64, packets: Seq<Seq<u8>>)
    ensures
        only_sent(st, model::packets_sent(st, elapsed_ms, packets)),
    decreases packets.len(),
{
    reveal(model::packets_sent);
    if packets.len() == 0 {
        assert(st.actions.take(st.actions.len() as int) =~= st.actions);
    } else {
        let sample = model::feedback_due(st.core, elapsed_ms);
        let m = wire::EndpointMessageState::KcpPacket {
            reply_depth: model::depth_of_sample(sample),
            packet: packets[0],
        };
        let next = model::message_sent(st, elapsed_ms, m, sample);
        lemma_message_sent_scope(st, elapsed_ms, m, sample);
        lemma_packets_sent_scope(next, elapsed_ms, packets.drop_first());
        lemma_only_sent_trans(
            st,
            next,
            model::packets_sent(next, elapsed_ms, packets.drop_first()),
        );
    }
}

/// A write hands no bytes back to the shell: it causes packets, and at most the end of the
/// session.
pub proof fn law_write_hands_nothing_back(
    st: Step,
    elapsed_ms: u64,
    conv_id: u64,
    bytes: Seq<u8>,
)
    ensures
        ({
            let after = model::event_handled(
                st,
                elapsed_ms,
                EventState::SessionWrite { conv_id, bytes },
            ).0;
            &&& st.actions.len() <= after.actions.len()
            &&& after.actions.take(st.actions.len() as int) == st.actions
            &&& forall|i: int|
                st.actions.len() <= i < after.actions.len() ==> (
                #[trigger] after.actions[i]) !is WriteSession
        }),
{
    reveal(model::session_sent);
    reveal(model::closed_finished);
    let after = model::event_handled(
        st,
        elapsed_ms,
        EventState::SessionWrite { conv_id, bytes },
    ).0;
    if !model::write_blocked(st.core, conv_id, bytes.len()) {
        let m = wire::SessionMessageState::Data { bytes };
        let old_session = st.core.sessions[conv_id];
        let (kcp, packets) = session::message_sent(old_session.kcp, elapsed_ms, m);
        let kept = model::with_core(
            st,
            model::put_session(st.core, conv_id, SessionState { kcp, ..old_session }),
        );
        lemma_packets_sent_scope(kept, elapsed_ms, packets);
        let sent = model::packets_sent(kept, elapsed_ms, packets);
        assert(after == model::closed_finished(sent, elapsed_ms, conv_id));
        assert(sent.actions.take(st.actions.len() as int) == st.actions);
        assert forall|i: int| 0 <= i < st.actions.len() implies sent.actions[i]
            == st.actions[i] by {
            assert(sent.actions.take(st.actions.len() as int)[i] == sent.actions[i]);
        }
        assert(after.actions.take(st.actions.len() as int) =~= st.actions);
    } else {
        assert(after.actions.take(st.actions.len() as int) =~= st.actions);
    }
}

proof fn lemma_closed_finished_scope(st: Step, elapsed_ms: u64, conv: u64)
    ensures
        within_session(st, model::closed_finished(st, elapsed_ms, conv), conv),
{
    reveal(model::closed_finished);
    let t = model::closed_finished(st, elapsed_ms, conv);
    assert(t.actions.take(st.actions.len() as int) =~= st.actions);
    assert(t.core.sessions.remove(conv) =~= st.core.sessions.remove(conv));
    assert(t.core.tombstones.remove(conv) =~= st.core.tombstones.remove(conv));
}

/// A session that is put back in another state, under the same sender.
proof fn lemma_put_scope(st: Step, conv: u64, session: SessionState)
    requires
        st.core.sessions.contains_key(conv),
        session.peer_seq == st.core.sessions[conv].peer_seq,
    ensures
        within_session(
            st,
            model::with_core(st, model::put_session(st.core, conv, session)),
            conv,
        ),
{
    let t = model::with_core(st, model::put_session(st.core, conv, session));
    assert(t.actions.take(st.actions.len() as int) =~= st.actions);
    assert(t.core.sessions.remove(conv) =~= st.core.sessions.remove(conv));
}

proof fn lemma_session_sent_scope(
    st: Step,
    elapsed_ms: u64,
    conv: u64,
    m: wire::SessionMessageState,
)
    requires
        st.core.sessions.contains_key(conv),
    ensures
        within_session(st, model::session_sent(st, elapsed_ms, conv, m), conv),
{
    reveal(model::session_sent);
    let session = st.core.sessions[conv];
    let (kcp, packets) = session::message_sent(session.kcp, elapsed_ms, m);
    let next = SessionState { kcp, ..session };
    let kept = model::with_core(st, model::put_session(st.core, conv, next));
    lemma_put_scope(st, conv, next);
    let sent = model::packets_sent(kept, elapsed_ms, packets);
    lemma_packets_sent_scope(kept, elapsed_ms, packets);
    lemma_only_sent_within(kept, sent, conv);
    lemma_within_trans(st, kept, sent, conv);
    lemma_closed_finished_scope(sent, elapsed_ms, conv);
    lemma_within_trans(st, sent, model::closed_finished(sent, elapsed_ms, conv), conv);
}

proof fn lemma_close_announced_scope(st: Step, elapsed_ms: u64, conv: u64)
    ensures
        within_session(st, model::close_announced(st, elapsed_ms, conv), conv),
{
    reveal(model::close_announced);
    if model::close_ready(st.core, elapsed_ms, conv) {
        let session = st.core.sessions[conv];
        let queued = SessionState { close_queued: true, ..session };
        let m = wire::SessionMessageState::Close { reason: session.pending_close->0 };
        let next = model::with_core(st, model::put_session(st.core, conv, queued));
        lemma_put_scope(st, conv, queued);
        lemma_session_sent_scope(next, elapsed_ms, conv, m);
        lemma_within_trans(st, next, model::session_sent(next, elapsed_ms, conv, m), conv);
    } else {
        assert(st.actions.take(st.actions.len() as int) =~= st.actions);
    }
}

proof fn lemma_session_received_scope(
    st: Step,
    elapsed_ms: u64,
    conv: u64,
    m: wire::SessionMessageState,
)
    ensures
        within_session(st, model::session_received(st, elapsed_ms, conv, m), conv),
{
    reveal(model::session_received);
    let t = model::session_received(st, elapsed_ms, conv, m);
    assert(t.actions.take(st.actions.len() as int) =~= st.actions);
    assert(t.core.sessions.remove(conv) =~= st.core.sessions.remove(conv));
}

proof fn lemma_messages_received_scope(
    st: Step,
    elapsed_ms: u64,
    conv: u64,
    messages: Seq<Seq<u8>>,
)
    ensures
        within_session(st, model::messages_received(st, elapsed_ms, conv, messages), conv),
    decreases messages.len(),
{
    reveal(model::messages_received);
    if messages.len() == 0 {
        assert(st.actions.take(st.actions.len() as int) =~= st.actions);
    } else {
        let m = wire::decode_session(messages[0])->0;
        let next = model::session_received(st, elapsed_ms, conv, m);
        lemma_session_received_scope(st, elapsed_ms, conv, m);
        lemma_messages_received_scope(next, elapsed_ms, conv, messages.drop_first());
        lemma_within_trans(
            st,
            next,
            model::messages_received(next, elapsed_ms, conv, messages.drop_first()),
            conv,
        );
    }
}

/// The step in which a packet has been handed to its session, before anything is made of it.
pub open spec fn packet_kept(st: Step, elapsed_ms: u64, peer_seq: u64, packet: Seq<u8>) -> Step {
    let conv = kcp::model::conv_of(packet);
    let session = model::addressed_session(st.core, elapsed_ms, peer_seq, conv);
    let taken = session::packet_taken(session.kcp, elapsed_ms, packet);
    model::with_core(
        st,
        model::put_session(st.core, conv, SessionState { kcp: taken.kcp, ..session }),
    )
}

/// A packet that is not dropped is handed to its session, and concerns no other one.
proof fn lemma_kcp_received_scope(st: Step, elapsed_ms: u64, peer_seq: u64, packet: Seq<u8>)
    requires
        ({
            let conv = kcp::model::conv_of(packet);
            !st.core.tombstones.contains_key(conv) && !model::foreign(st.core, peer_seq, conv)
        }),
    ensures
        within_session(
            packet_kept(st, elapsed_ms, peer_seq, packet),
            model::kcp_received(st, elapsed_ms, peer_seq, packet),
            kcp::model::conv_of(packet),
        ),
{
    reveal(model::kcp_received);
    let conv = kcp::model::conv_of(packet);
    let session = model::addressed_session(st.core, elapsed_ms, peer_seq, conv);
    let taken = session::packet_taken(session.kcp, elapsed_ms, packet);
    let kept = packet_kept(st, elapsed_ms, peer_seq, packet);
    let answered = model::packets_sent(kept, elapsed_ms, taken.packets);
    lemma_packets_sent_scope(kept, elapsed_ms, taken.packets);
    lemma_only_sent_within(kept, answered, conv);
    let handled = model::messages_received(answered, elapsed_ms, conv, taken.messages);
    lemma_messages_received_scope(answered, elapsed_ms, conv, taken.messages);
    lemma_within_trans(kept, answered, handled, conv);
    let announced = model::close_announced(handled, elapsed_ms, conv);
    lemma_close_announced_scope(handled, elapsed_ms, conv);
    lemma_within_trans(kept, handled, announced, conv);
    lemma_closed_finished_scope(announced, elapsed_ms, conv);
    lemma_within_trans(
        kept,
        announced,
        model::closed_finished(announced, elapsed_ms, conv),
        conv,
    );
}

/// The action tells the shell something of the session.
pub open spec fn reports(action: ActionState, conv: u64) -> bool {
    action !is SendTransportPacket && concerns(action, conv)
}

/// Nothing has happened to the session, and the shell is told nothing of it.
pub open spec fn untouched(st: Step, t: Step, conv: u64) -> bool {
    &&& t.core.sessions.contains_key(conv) == st.core.sessions.contains_key(conv)
    &&& st.core.sessions.contains_key(conv) ==> t.core.sessions[conv] == st.core.sessions[conv]
    &&& t.core.tombstones.contains_key(conv) == st.core.tombstones.contains_key(conv)
    &&& st.core.tombstones.contains_key(conv) ==> t.core.tombstones[conv]
        == st.core.tombstones[conv]
    &&& st.actions.len() <= t.actions.len()
    &&& t.actions.take(st.actions.len() as int) == st.actions
    &&& forall|i: int|
        st.actions.len() <= i < t.actions.len() ==> !reports(#[trigger] t.actions[i], conv)
}

pub proof fn lemma_untouched_trans(a: Step, b: Step, c: Step, conv: u64)
    requires
        untouched(a, b, conv),
        untouched(b, c, conv),
    ensures
        untouched(a, c, conv),
{
    let n = a.actions.len() as int;
    assert(c.actions.take(n) =~= b.actions.take(n)) by {
        assert(c.actions.take(n) =~= c.actions.take(b.actions.len() as int).take(n));
    }
    assert forall|i: int| n <= i < c.actions.len() implies !reports(
        #[trigger] c.actions[i],
        conv,
    ) by {
        if i < b.actions.len() {
            assert(c.actions.take(b.actions.len() as int)[i] == b.actions[i]);
        }
    }
}

proof fn lemma_within_untouched(a: Step, b: Step, other: u64, conv: u64)
    requires
        within_session(a, b, other),
        other != conv,
    ensures
        untouched(a, b, conv),
{
    let before = a.core.sessions.remove(other);
    let after = b.core.sessions.remove(other);
    assert(before.contains_key(conv) == after.contains_key(conv) && before[conv] == after[conv]);
    let closed_before = a.core.tombstones.remove(other);
    let closed_after = b.core.tombstones.remove(other);
    assert(closed_before.contains_key(conv) == closed_after.contains_key(conv)
        && closed_before[conv] == closed_after[conv]);
}

proof fn lemma_put_untouched(st: Step, other: u64, session: SessionState, conv: u64)
    requires
        other != conv,
    ensures
        untouched(
            st,
            model::with_core(st, model::put_session(st.core, other, session)),
            conv,
        ),
{
    assert(st.actions.take(st.actions.len() as int) =~= st.actions);
}

/// What a packet brings about for the sessions that it is not addressed to: nothing. Nor does
/// it bring about anything for a closed session, or for one that is bound to another sender.
proof fn lemma_kcp_received_untouched(
    st: Step,
    elapsed_ms: u64,
    peer_seq: u64,
    packet: Seq<u8>,
    conv: u64,
)
    requires
        kcp::model::conv_of(packet) != conv || st.core.tombstones.contains_key(conv)
            || model::foreign(st.core, peer_seq, conv),
    ensures
        untouched(st, model::kcp_received(st, elapsed_ms, peer_seq, packet), conv),
{
    let addressed = kcp::model::conv_of(packet);
    if st.core.tombstones.contains_key(addressed) || model::foreign(
        st.core,
        peer_seq,
        addressed,
    ) {
        reveal(model::kcp_received);
        assert(st.actions.take(st.actions.len() as int) =~= st.actions);
    } else {
        let session = model::addressed_session(st.core, elapsed_ms, peer_seq, addressed);
        let taken = session::packet_taken(session.kcp, elapsed_ms, packet);
        let kept = packet_kept(st, elapsed_ms, peer_seq, packet);
        lemma_put_untouched(st, addressed, SessionState { kcp: taken.kcp, ..session }, conv);
        lemma_kcp_received_scope(st, elapsed_ms, peer_seq, packet);
        let end = model::kcp_received(st, elapsed_ms, peer_seq, packet);
        lemma_within_untouched(kept, end, addressed, conv);
        lemma_untouched_trans(st, kept, end, conv);
    }
}

/// The message in an authentic packet.
pub open spec fn message_in(s: EndpointState, bytes: Seq<u8>) -> wire::EndpointMessageState {
    let e = packet::decode_packet(s.params.envelope_key, bytes)->Ok_0;
    wire::decode_endpoint(
        model::opened_message(s.params.message_key, wire::stamp_of(e), e.payload)->0,
    )->0
}

/// The event is one that the session has to do with: it is opened, written or closed, or a
/// KCP packet for it arrives from the sender that it is bound to, if any, while it is not
/// closed.
pub open spec fn meant_for(
    s: EndpointState,
    elapsed_ms: u64,
    event: EventState,
    conv: u64,
) -> bool {
    match event {
        EventState::SessionOpen => conv == s.next_conv_id,
        EventState::SessionWrite { conv_id, .. } => conv_id == conv,
        EventState::SessionClose { conv_id, .. } => conv_id == conv,
        EventState::TransportPacketSendFailed { .. } => false,
        EventState::TransportPacketReceived { bytes, .. } => {
            &&& authentic(s, bytes)
            &&& model::admitted(s, elapsed_ms, stamp_in(s, bytes)).1
            &&& message_in(s, bytes) matches wire::EndpointMessageState::KcpPacket { packet, .. }
            &&& kcp::model::conv_of(packet) == conv
            &&& !s.tombstones.contains_key(conv)
            &&& !model::foreign(s, stamp_in(s, bytes).seq_id, conv)
        },
    }
}

/// Sessions are independent: an event that is not meant for a session does nothing to it, and
/// the shell is told nothing of it. In particular, no packet opens a session again that has
/// been closed and is remembered, and no packet of another sender reaches a session.
pub proof fn law_sessions_are_independent(
    st: Step,
    elapsed_ms: u64,
    event: EventState,
    conv: u64,
)
    requires
        model::event_acceptable(st.core, elapsed_ms, event),
        !meant_for(st.core, elapsed_ms, event, conv),
    ensures
        untouched(st, model::event_handled(st, elapsed_ms, event).0, conv),
{
    let after = model::event_handled(st, elapsed_ms, event).0;
    let s = st.core;
    assert(st.actions.take(st.actions.len() as int) =~= st.actions);
    match event {
        EventState::SessionOpen => {
            let id = s.next_conv_id;
            let session = session::new_session(id, s.params.kcp, SessionPhase::Open);
            let numbered = model::with_core(
                st,
                EndpointState { next_conv_id: id.wrapping_add(1), ..s },
            );
            let opened = model::with_core(
                numbered,
                model::put_session(numbered.core, id, session),
            );
            assert(untouched(st, numbered, conv));
            lemma_put_untouched(numbered, id, session, conv);
            lemma_untouched_trans(st, numbered, opened, conv);
            lemma_session_sent_scope(opened, elapsed_ms, id, wire::SessionMessageState::Open);
            lemma_within_untouched(opened, after, id, conv);
            lemma_untouched_trans(st, opened, after, conv);
        },
        EventState::SessionWrite { conv_id, bytes } => {
            if !model::write_blocked(s, conv_id, bytes.len()) {
                lemma_session_sent_scope(
                    st,
                    elapsed_ms,
                    conv_id,
                    wire::SessionMessageState::Data { bytes },
                );
                lemma_within_untouched(st, after, conv_id, conv);
            }
        },
        EventState::SessionClose { conv_id, reason } => {
            let closing = SessionState {
                phase: SessionPhase::ClosingLocal,
                close_deadline_at: Some(
                    model::later(elapsed_ms, s.params.close_deadline_ms as int),
                ),
                pending_close: Some(reason),
                ..s.sessions[conv_id]
            };
            let next = model::with_core(st, model::put_session(s, conv_id, closing));
            lemma_put_untouched(st, conv_id, closing, conv);
            lemma_close_announced_scope(next, elapsed_ms, conv_id);
            lemma_within_untouched(next, after, conv_id, conv);
            lemma_untouched_trans(st, next, after, conv);
        },
        EventState::TransportPacketSendFailed { channel_id, bytes } => {
            reveal(model::send_refused);
            let e = packet::decode_packet(s.params.envelope_key, bytes)->Ok_0;
            let stamp = wire::stamp_of(e);
            let was_sample = s.outstanding.contains_key((e.seq_id, e.seq_no));
            let noted = model::with_core(
                st,
                EndpointState {
                    metrics: CoreMetrics {
                        send_failures: machine::bumped(s.metrics.send_failures),
                        ..s.metrics
                    },
                    planner: routing::send_failed(s.planner, channel_id, elapsed_ms),
                    outstanding: s.outstanding.remove((e.seq_id, e.seq_no)),
                    next_feedback_at: if was_sample {
                        elapsed_ms
                    } else {
                        s.next_feedback_at
                    },
                    ..s
                },
            );
            lemma_envelope_sent_scope(noted, elapsed_ms, stamp, e.payload, was_sample);
        },
        EventState::TransportPacketReceived { bytes, .. } => {
            lemma_received_untouched(st, elapsed_ms, event, bytes, conv);
        },
    }
}

proof fn lemma_received_untouched(
    st: Step,
    elapsed_ms: u64,
    event: EventState,
    bytes: Seq<u8>,
    conv: u64,
)
    requires
        event matches EventState::TransportPacketReceived { bytes: b, .. } && b == bytes,
        model::event_acceptable(st.core, elapsed_ms, event),
        !meant_for(st.core, elapsed_ms, event, conv),
    ensures
        untouched(st, model::event_handled(st, elapsed_ms, event).0, conv),
{
    let after = model::event_handled(st, elapsed_ms, event).0;
    let s = st.core;
    assert(st.actions.take(st.actions.len() as int) =~= st.actions);
    let stamp = stamp_in(s, bytes);
    if !authentic(s, bytes) || !model::admitted(s, elapsed_ms, stamp).1 {
        if let EventState::TransportPacketReceived { channel_id, .. } = event {
            law_refused_packet_leaves_no_trace(st, elapsed_ms, channel_id, bytes);
        }
    } else {
        reveal(model::message_handled);
        let (checked, handled) = lemma_received_steps(st, elapsed_ms, event, bytes);
        assert(untouched(st, checked, conv));
        if let wire::EndpointMessageState::KcpPacket { packet, .. } = message_in(s, bytes) {
            lemma_kcp_received_untouched(checked, elapsed_ms, stamp.seq_id, packet, conv);
        } else {
            assert(untouched(checked, handled, conv));
        }
        lemma_untouched_trans(st, checked, handled, conv);
        assert(untouched(handled, after, conv));
        lemma_untouched_trans(st, handled, after, conv);
    }
}

/// A session stays bound to the sender of its first packet.
pub proof fn law_session_keeps_its_peer(st: Step, elapsed_ms: u64, event: EventState, conv: u64)
    requires
        model::event_acceptable(st.core, elapsed_ms, event),
        st.core.sessions.contains_key(conv),
        st.core.sessions[conv].peer_seq is Some,
        event is SessionOpen ==> conv != st.core.next_conv_id,
        model::event_handled(st, elapsed_ms, event).0.core.sessions.contains_key(conv),
    ensures
        model::event_handled(st, elapsed_ms, event).0.core.sessions[conv].peer_seq
            == st.core.sessions[conv].peer_seq,
{
    if !meant_for(st.core, elapsed_ms, event, conv) {
        law_sessions_are_independent(st, elapsed_ms, event, conv);
    } else {
        let s = st.core;
        match event {
            EventState::SessionWrite { bytes, .. } => {
                if !model::write_blocked(s, conv, bytes.len()) {
                    lemma_session_sent_scope(
                        st,
                        elapsed_ms,
                        conv,
                        wire::SessionMessageState::Data { bytes },
                    );
                }
            },
            EventState::SessionClose { reason, .. } => {
                let closing = closing_session(s, elapsed_ms, conv, reason);
                let next = model::with_core(st, model::put_session(s, conv, closing));
                lemma_close_announced_scope(next, elapsed_ms, conv);
            },
            EventState::TransportPacketReceived { bytes, .. } => {
                let (checked, handled) = lemma_received_steps(st, elapsed_ms, event, bytes);
                if let wire::EndpointMessageState::KcpPacket { packet, .. } = message_in(
                    s,
                    bytes,
                ) {
                    lemma_kcp_received_scope(
                        checked,
                        elapsed_ms,
                        stamp_in(s, bytes).seq_id,
                        packet,
                    );
                }
            },
            _ => {},
        }
    }
}

/// A session that the shell closes.
pub open spec fn closing_session(
    s: EndpointState,
    elapsed_ms: u64,
    conv: u64,
    reason: CloseReason,
) -> SessionState {
    SessionState {
        phase: SessionPhase::ClosingLocal,
        close_deadline_at: Some(model::later(elapsed_ms, s.params.close_deadline_ms as int)),
        pending_close: Some(reason),
        ..s.sessions[conv]
    }
}

/// The way of an authentic packet that is admitted: the filter and the metrics take notice,
/// the message is handled, and an answer goes out.
proof fn lemma_received_steps(
    st: Step,
    elapsed_ms: u64,
    event: EventState,
    bytes: Seq<u8>,
) -> (steps: (Step, Step))
    requires
        event matches EventState::TransportPacketReceived { bytes: b, .. } && b == bytes,
        authentic(st.core, bytes),
        model::admitted(st.core, elapsed_ms, stamp_in(st.core, bytes)).1,
    ensures
        steps.0.actions == st.actions,
        steps.0.core == (EndpointState {
            filter: steps.0.core.filter,
            metrics: steps.0.core.metrics,
            ..st.core
        }),
        steps.1 == model::message_handled(
            steps.0,
            elapsed_ms,
            stamp_in(st.core, bytes),
            message_in(st.core, bytes),
        ),
        message_in(st.core, bytes) matches wire::EndpointMessageState::KcpPacket { packet, .. }
            ==> steps.1 == model::kcp_received(
            steps.0,
            elapsed_ms,
            stamp_in(st.core, bytes).seq_id,
            packet,
        ),
        only_sent(steps.1, model::event_handled(st, elapsed_ms, event).0),
{
    reveal(model::packet_received);
    reveal(model::message_handled);
    reveal(model::replied);
    let s = st.core;
    let stamp = stamp_in(s, bytes);
    let m = message_in(s, bytes);
    let counted = EndpointState {
        metrics: CoreMetrics {
            packets_received: machine::bumped(s.metrics.packets_received),
            ..s.metrics
        },
        ..s
    };
    let checked = model::with_core(st, model::admitted(counted, elapsed_ms, stamp).0);
    let handled = model::message_handled(checked, elapsed_ms, stamp, m);
    let depth = wire::reply_depth_of(m);
    assert(handled.actions.take(handled.actions.len() as int) =~= handled.actions);
    if depth > 0 {
        let reply = model::reply_to(handled.core, elapsed_ms, stamp, depth);
        lemma_message_sent_scope(handled, elapsed_ms, reply, wire::reply_depth_of(reply) > 0);
    }
    (checked, handled)
}

// ---------------------------------------------------------------------------
// What the shell is told of a session
// ---------------------------------------------------------------------------

/// The action tells the shell that the session is opened, or that it is closed.
pub open spec fn tells(action: ActionState, conv: u64, opening: bool) -> bool {
    match action {
        ActionState::OpenSession { conv_id } => opening && conv_id == conv,
        ActionState::CloseSession { conv_id, .. } => !opening && conv_id == conv,
        _ => false,
    }
}

/// How often the shell has been told that the session is opened, or closed.
pub open spec fn times_told(actions: Seq<ActionState>, conv: u64, opening: bool) -> nat
    decreases actions.len(),
{
    if actions.len() == 0 {
        0
    } else {
        times_told(actions.drop_last(), conv, opening) + if tells(actions.last(), conv, opening) {
            1nat
        } else {
            0nat
        }
    }
}

/// Whether the shell may still be told that the session is opened, or closed.
pub open spec fn may_tell(s: EndpointState, conv: u64, opening: bool) -> bool {
    s.sessions.contains_key(conv) && if opening {
        s.sessions[conv].phase == SessionPhase::PendingRemote
    } else {
        s.sessions[conv].phase != SessionPhase::ClosingRemote
    }
}

/// How often the shell has been or may be told.
pub open spec fn budget(st: Step, conv: u64, opening: bool) -> nat {
    times_told(st.actions, conv, opening) + if may_tell(st.core, conv, opening) {
        1nat
    } else {
        0nat
    }
}

proof fn lemma_told_sends(
    before: Seq<ActionState>,
    after: Seq<ActionState>,
    conv: u64,
    opening: bool,
)
    requires
        before.len() <= after.len(),
        after.take(before.len() as int) == before,
        forall|i: int|
            before.len() <= i < after.len() ==> (#[trigger] after[i]) is SendTransportPacket,
    ensures
        times_told(after, conv, opening) == times_told(before, conv, opening),
    decreases after.len(),
{
    if after.len() == before.len() {
        assert(after.take(before.len() as int) =~= after);
    } else {
        assert(after.drop_last().take(before.len() as int) =~= after.take(before.len() as int));
        lemma_told_sends(before, after.drop_last(), conv, opening);
        assert(after[after.len() - 1] is SendTransportPacket);
    }
}

proof fn lemma_packets_sent_budget(
    st: Step,
    elapsed_ms: u64,
    packets: Seq<Seq<u8>>,
    conv: u64,
    opening: bool,
)
    ensures
        budget(model::packets_sent(st, elapsed_ms, packets), conv, opening) == budget(
            st,
            conv,
            opening,
        ),
{
    lemma_packets_sent_scope(st, elapsed_ms, packets);
    let t = model::packets_sent(st, elapsed_ms, packets);
    lemma_told_sends(st.actions, t.actions, conv, opening);
}

proof fn lemma_closed_finished_budget(st: Step, elapsed_ms: u64, conv: u64, opening: bool)
    ensures
        budget(model::closed_finished(st, elapsed_ms, conv), conv, opening) <= budget(
            st,
            conv,
            opening,
        ),
{
    reveal(model::closed_finished);
    let t = model::closed_finished(st, elapsed_ms, conv);
    if t.actions.len() > st.actions.len() {
        assert(t.actions.drop_last() =~= st.actions);
    }
}

proof fn lemma_session_sent_budget(
    st: Step,
    elapsed_ms: u64,
    conv: u64,
    m: wire::SessionMessageState,
    opening: bool,
)
    requires
        st.core.sessions.contains_key(conv),
    ensures
        budget(model::session_sent(st, elapsed_ms, conv, m), conv, opening) <= budget(
            st,
            conv,
            opening,
        ),
{
    reveal(model::session_sent);
    let session = st.core.sessions[conv];
    let (kcp, packets) = session::message_sent(session.kcp, elapsed_ms, m);
    let kept = model::with_core(
        st,
        model::put_session(st.core, conv, SessionState { kcp, ..session }),
    );
    lemma_packets_sent_budget(kept, elapsed_ms, packets, conv, opening);
    lemma_closed_finished_budget(
        model::packets_sent(kept, elapsed_ms, packets),
        elapsed_ms,
        conv,
        opening,
    );
}

proof fn lemma_close_announced_budget(st: Step, elapsed_ms: u64, conv: u64, opening: bool)
    ensures
        budget(model::close_announced(st, elapsed_ms, conv), conv, opening) <= budget(
            st,
            conv,
            opening,
        ),
{
    reveal(model::close_announced);
    if model::close_ready(st.core, elapsed_ms, conv) {
        let session = st.core.sessions[conv];
        let queued = SessionState { close_queued: true, ..session };
        lemma_session_sent_budget(
            model::with_core(st, model::put_session(st.core, conv, queued)),
            elapsed_ms,
            conv,
            wire::SessionMessageState::Close { reason: session.pending_close->0 },
            opening,
        );
    }
}

proof fn lemma_messages_received_budget(
    st: Step,
    elapsed_ms: u64,
    conv: u64,
    messages: Seq<Seq<u8>>,
    opening: bool,
)
    ensures
        budget(model::messages_received(st, elapsed_ms, conv, messages), conv, opening) <= budget(
            st,
            conv,
            opening,
        ),
    decreases messages.len(),
{
    reveal(model::messages_received);
    if messages.len() > 0 {
        let next = model::session_received(
            st,
            elapsed_ms,
            conv,
            wire::decode_session(messages[0])->0,
        );
        assert(budget(next, conv, opening) <= budget(st, conv, opening)) by {
            reveal(model::session_received);
            if next.actions.len() > st.actions.len() {
                assert(next.actions.drop_last() =~= st.actions);
            }
        }
        lemma_messages_received_budget(next, elapsed_ms, conv, messages.drop_first(), opening);
    }
}

proof fn lemma_kcp_received_budget(
    st: Step,
    elapsed_ms: u64,
    peer_seq: u64,
    packet: Seq<u8>,
    opening: bool,
)
    requires
        ({
            let conv = kcp::model::conv_of(packet);
            !st.core.tombstones.contains_key(conv) && !model::foreign(st.core, peer_seq, conv)
        }),
    ensures
        ({
            let conv = kcp::model::conv_of(packet);
            let end = model::kcp_received(st, elapsed_ms, peer_seq, packet);
            budget(end, conv, opening) <= budget(st, conv, opening)
                + if st.core.sessions.contains_key(conv) {
                0nat
            } else {
                1nat
            }
        }),
{
    reveal(model::kcp_received);
    let conv = kcp::model::conv_of(packet);
    let session = model::addressed_session(st.core, elapsed_ms, peer_seq, conv);
    let taken = session::packet_taken(session.kcp, elapsed_ms, packet);
    let kept = packet_kept(st, elapsed_ms, peer_seq, packet);
    let answered = model::packets_sent(kept, elapsed_ms, taken.packets);
    lemma_packets_sent_budget(kept, elapsed_ms, taken.packets, conv, opening);
    let handled = model::messages_received(answered, elapsed_ms, conv, taken.messages);
    lemma_messages_received_budget(answered, elapsed_ms, conv, taken.messages, opening);
    lemma_close_announced_budget(handled, elapsed_ms, conv, opening);
    lemma_closed_finished_budget(
        model::close_announced(handled, elapsed_ms, conv),
        elapsed_ms,
        conv,
        opening,
    );
}

/// The shell is told at most once that a session is opened, and at most once that it is
/// closed, whatever the peer repeats: each event uses up what may still be told of a session.
/// Only the event that creates the session adds to it.
pub proof fn law_session_is_reported_once(
    st: Step,
    elapsed_ms: u64,
    event: EventState,
    conv: u64,
    opening: bool,
)
    requires
        model::event_acceptable(st.core, elapsed_ms, event),
        event is SessionOpen ==> conv != st.core.next_conv_id,
    ensures
        ({
            let after = model::event_handled(st, elapsed_ms, event).0;
            &&& budget(after, conv, opening) <= budget(st, conv, opening)
                + if st.core.sessions.contains_key(conv) {
                0nat
            } else {
                1nat
            }
            &&& st.core.sessions.contains_key(conv) && !may_tell(st.core, conv, opening)
                ==> times_told(after.actions, conv, opening) == times_told(
                st.actions,
                conv,
                opening,
            )
        }),
{
    let after = model::event_handled(st, elapsed_ms, event).0;
    let s = st.core;
    if !meant_for(s, elapsed_ms, event, conv) {
        law_sessions_are_independent(st, elapsed_ms, event, conv);
        lemma_told_unreported(st.actions, after.actions, conv, opening);
    } else {
        match event {
            EventState::SessionWrite { bytes, .. } => {
                if !model::write_blocked(s, conv, bytes.len()) {
                    let m = wire::SessionMessageState::Data { bytes };
                    lemma_session_sent_scope(st, elapsed_ms, conv, m);
                    lemma_session_sent_budget(st, elapsed_ms, conv, m, opening);
                } else {
                    assert(st.actions.take(st.actions.len() as int) =~= st.actions);
                }
            },
            EventState::SessionClose { reason, .. } => {
                let closing = closing_session(s, elapsed_ms, conv, reason);
                let next = model::with_core(st, model::put_session(s, conv, closing));
                lemma_close_announced_scope(next, elapsed_ms, conv);
                lemma_close_announced_budget(next, elapsed_ms, conv, opening);
            },
            EventState::TransportPacketReceived { bytes, .. } => {
                let (checked, handled) = lemma_received_steps(st, elapsed_ms, event, bytes);
                if let wire::EndpointMessageState::KcpPacket { packet, .. } = message_in(
                    s,
                    bytes,
                ) {
                    let peer_seq = stamp_in(s, bytes).seq_id;
                    lemma_kcp_received_scope(checked, elapsed_ms, peer_seq, packet);
                    lemma_kcp_received_budget(checked, elapsed_ms, peer_seq, packet, opening);
                    lemma_told_sends(handled.actions, after.actions, conv, opening);
                    lemma_told_grows(st.actions, handled.actions, conv, opening);
                }
            },
            _ => {},
        }
        if let EventState::TransportPacketReceived { .. } = event {
        } else {
            lemma_told_grows(st.actions, after.actions, conv, opening);
        }
    }
}

proof fn lemma_told_grows(
    before: Seq<ActionState>,
    after: Seq<ActionState>,
    conv: u64,
    opening: bool,
)
    requires
        before.len() <= after.len(),
        after.take(before.len() as int) == before,
    ensures
        times_told(before, conv, opening) <= times_told(after, conv, opening),
    decreases after.len(),
{
    if after.len() == before.len() {
        assert(after.take(before.len() as int) =~= after);
    } else {
        assert(after.drop_last().take(before.len() as int) =~= after.take(before.len() as int));
        lemma_told_grows(before, after.drop_last(), conv, opening);
    }
}

proof fn lemma_told_unreported(
    before: Seq<ActionState>,
    after: Seq<ActionState>,
    conv: u64,
    opening: bool,
)
    requires
        before.len() <= after.len(),
        after.take(before.len() as int) == before,
        forall|i: int| before.len() <= i < after.len() ==> !reports(#[trigger] after[i], conv),
    ensures
        times_told(after, conv, opening) == times_told(before, conv, opening),
    decreases after.len(),
{
    if after.len() == before.len() {
        assert(after.take(before.len() as int) =~= after);
    } else {
        assert(after.drop_last().take(before.len() as int) =~= after.take(before.len() as int));
        lemma_told_unreported(before, after.drop_last(), conv, opening);
        assert(!reports(after[after.len() - 1], conv));
    }
}

// ---------------------------------------------------------------------------
// Time
// ---------------------------------------------------------------------------

/// Nothing waits for the passing of time.
pub open spec fn idle(s: EndpointState) -> bool {
    &&& forall|conv: u64| !#[trigger] s.sessions.contains_key(conv)
    &&& forall|conv: u64| !#[trigger] s.tombstones.contains_key(conv)
    &&& forall|id: (u64, u64)| !#[trigger] s.outstanding.contains_key(id)
    &&& s.params.keepalive_interval_ms == 0
    &&& s.filter.len() <= model::SEQUENCE_SOFT_CAP
}

/// An idle endpoint has no deadline.
pub proof fn law_idle_endpoint_has_no_deadline(s: EndpointState, elapsed_ms: u64, deadline: u64)
    requires
        idle(s),
        model::wants_poll_at(s, elapsed_ms, deadline),
    ensures
        deadline == u64::MAX,
{
}

pub proof fn lemma_samples_expired_scope(s: EndpointState, elapsed_ms: u64, ids: Seq<(u64, u64)>)
    ensures
        ({
            let t = model::samples_expired(s, elapsed_ms, ids);
            t == (EndpointState { planner: t.planner, outstanding: t.outstanding, ..s })
        }),
    decreases ids.len(),
{
    reveal(model::samples_expired);
    if ids.len() > 0 {
        let sample = s.outstanding[ids[0]];
        let next = if elapsed_ms < sample.deadline {
            s
        } else {
            EndpointState {
                outstanding: s.outstanding.remove(ids[0]),
                planner: routing::feedback(s.planner, sample.route_plan, sample.sent_at, false),
                ..s
            }
        };
        lemma_samples_expired_scope(next, elapsed_ms, ids.drop_first());
    }
}

/// A session is left alone, or it is closed and remembered.
pub open spec fn left_or_buried(
    s: EndpointState,
    t: EndpointState,
    elapsed_ms: u64,
    conv: u64,
) -> bool {
    if t.sessions.contains_key(conv) {
        s.sessions.contains_key(conv) && t.sessions[conv] == s.sessions[conv]
    } else {
        s.sessions.contains_key(conv) ==> t.tombstones.contains_key(conv) && t.tombstones[conv]
            == model::later(elapsed_ms, SESSION_TOMBSTONE_MS as int)
    }
}

pub proof fn lemma_sessions_reset(
    st: Step,
    elapsed_ms: u64,
    seq_id: u64,
    convs: Seq<u64>,
    conv: u64,
)
    requires
        st.core.sessions.dom().finite(),
    ensures
        ({
            let t = model::sessions_reset(st, elapsed_ms, seq_id, convs);
            &&& t.core.sessions.dom().finite()
            &&& left_or_buried(st.core, t.core, elapsed_ms, conv)
            &&& st.core.sessions.contains_key(conv) && st.core.sessions[conv].peer_seq != Some(
                seq_id,
            ) ==> t.core.sessions.contains_key(conv)
            &&& !st.core.sessions.contains_key(conv) ==> !t.core.sessions.contains_key(conv)
                && t.core.tombstones.contains_key(conv) == st.core.tombstones.contains_key(conv)
                && (st.core.tombstones.contains_key(conv) ==> t.core.tombstones[conv]
                == st.core.tombstones[conv])
        }),
    decreases convs.len(),
{
    reveal(model::sessions_reset);
    if convs.len() > 0 {
        let s = st.core;
        let first = convs[0];
        let next = if s.sessions.contains_key(first) && s.sessions[first].peer_seq == Some(
            seq_id,
        ) {
            let buried = EndpointState {
                sessions: s.sessions.remove(first),
                tombstones: s.tombstones.insert(
                    first,
                    model::later(elapsed_ms, SESSION_TOMBSTONE_MS as int),
                ),
                ..s
            };
            if s.sessions[first].phase != SessionPhase::PendingRemote {
                model::acted(
                    model::with_core(st, buried),
                    ActionState::CloseSession { conv_id: first, reason: CloseReason::Reset },
                )
            } else {
                model::with_core(st, buried)
            }
        } else {
            st
        };
        assert(next.core.sessions.dom().finite()) by {
            assert(s.sessions.remove(first).dom() =~= s.sessions.dom().remove(first));
        }
        lemma_sessions_reset(next, elapsed_ms, seq_id, convs.drop_first(), conv);
    }
}

/// The sessions of a sender that is silent for too long are reset; the others are left alone.
pub proof fn law_reset_spares_other_senders(
    st: Step,
    elapsed_ms: u64,
    seq_id: u64,
    conv: u64,
)
    requires
        st.core.sessions.dom().finite(),
        st.core.sessions.contains_key(conv),
    ensures
        ({
            let t = model::sessions_reset(
                st,
                elapsed_ms,
                seq_id,
                ordered::ascending(st.core.sessions.dom()),
            );
            if st.core.sessions[conv].peer_seq == Some(seq_id) {
                &&& !t.core.sessions.contains_key(conv)
                &&& t.core.tombstones.contains_key(conv)
            } else {
                &&& t.core.sessions.contains_key(conv)
                &&& t.core.sessions[conv] == st.core.sessions[conv]
            }
        }),
{
    let convs = ordered::ascending(st.core.sessions.dom());
    ordered::lemma_ascending_exists(st.core.sessions.dom());
    lemma_sessions_reset(st, elapsed_ms, seq_id, convs, conv);
    if st.core.sessions[conv].peer_seq == Some(seq_id) {
        assert(st.core.sessions.dom().contains(conv));
        lemma_reset_reaches(st, elapsed_ms, seq_id, convs, conv);
    }
}

proof fn lemma_reset_reaches(st: Step, elapsed_ms: u64, seq_id: u64, convs: Seq<u64>, conv: u64)
    requires
        st.core.sessions.dom().finite(),
        convs.contains(conv),
        st.core.sessions.contains_key(conv) ==> st.core.sessions[conv].peer_seq == Some(seq_id),
    ensures
        !model::sessions_reset(st, elapsed_ms, seq_id, convs).core.sessions.contains_key(conv),
    decreases convs.len(),
{
    reveal(model::sessions_reset);
    let s = st.core;
    let first = convs[0];
    let one = model::sessions_reset(st, elapsed_ms, seq_id, seq![first]);
    assert(seq![first].drop_first() =~= Seq::empty());
    reveal_with_fuel(model::sessions_reset, 2);
    lemma_sessions_reset(st, elapsed_ms, seq_id, seq![first], conv);
    assert(model::sessions_reset(st, elapsed_ms, seq_id, convs) == model::sessions_reset(
        one,
        elapsed_ms,
        seq_id,
        convs.drop_first(),
    ));
    if first == conv {
        lemma_sessions_reset(one, elapsed_ms, seq_id, convs.drop_first(), conv);
    } else {
        let i = choose|i: int| 0 <= i < convs.len() && convs[i] == conv;
        assert(convs.drop_first()[i - 1] == conv);
        lemma_reset_reaches(one, elapsed_ms, seq_id, convs.drop_first(), conv);
    }
}

pub proof fn lemma_senders_reset(st: Step, elapsed_ms: u64, ids: Seq<u64>, conv: u64)
    requires
        st.core.sessions.dom().finite(),
    ensures
        ({
            let t = model::senders_reset(st, elapsed_ms, ids);
            &&& t.core.sessions.dom().finite()
            &&& left_or_buried(st.core, t.core, elapsed_ms, conv)
            &&& !st.core.sessions.contains_key(conv) ==> !t.core.sessions.contains_key(conv)
                && t.core.tombstones.contains_key(conv) == st.core.tombstones.contains_key(conv)
                && (st.core.tombstones.contains_key(conv) ==> t.core.tombstones[conv]
                == st.core.tombstones[conv])
        }),
    decreases ids.len(),
{
    reveal(model::senders_reset);
    if ids.len() > 0 {
        let convs = ordered::ascending(st.core.sessions.dom());
        let next = model::sessions_reset(st, elapsed_ms, ids[0], convs);
        lemma_sessions_reset(st, elapsed_ms, ids[0], convs, conv);
        lemma_senders_reset(next, elapsed_ms, ids.drop_first(), conv);
    }
}

pub proof fn lemma_session_polled_scope(st: Step, elapsed_ms: u64, conv: u64)
    requires
        st.core.sessions.contains_key(conv),
    ensures
        ({
            let t = model::session_polled(st, elapsed_ms, conv);
            forall|other: u64| other != conv ==> #[trigger] untouched(st, t, other)
        }),
{
    reveal(model::session_polled);
    let announced = model::close_announced(st, elapsed_ms, conv);
    let session = announced.core.sessions[conv];
    let (kcp, packets) = session::polled(session.kcp, elapsed_ms);
    let next = SessionState { kcp, ..session };
    let kept = model::with_core(announced, model::put_session(announced.core, conv, next));
    let sent = model::packets_sent(kept, elapsed_ms, packets);
    let end = model::closed_finished(sent, elapsed_ms, conv);
    assert forall|other: u64| other != conv implies #[trigger] untouched(st, end, other) by {
        lemma_close_announced_scope(st, elapsed_ms, conv);
        lemma_within_untouched(st, announced, conv, other);
        lemma_put_untouched(announced, conv, next, other);
        lemma_untouched_trans(st, announced, kept, other);
        lemma_packets_sent_scope(kept, elapsed_ms, packets);
        lemma_only_sent_within(kept, sent, conv);
        lemma_within_untouched(kept, sent, conv, other);
        lemma_untouched_trans(st, kept, sent, other);
        lemma_closed_finished_scope(sent, elapsed_ms, conv);
        lemma_within_untouched(sent, end, conv, other);
        lemma_untouched_trans(st, sent, end, other);
    }
}

/// The session is closing, or was never opened, and its time is over.
pub open spec fn overdue(s: EndpointState, elapsed_ms: u64, conv: u64) -> bool {
    &&& s.sessions.contains_key(conv)
    &&& s.sessions[conv].phase != SessionPhase::Open
    &&& model::deadline_hit(s.sessions[conv], elapsed_ms)
}

/// The session is gone and, where the shell knew it, remembered as closed.
pub open spec fn ended(s: EndpointState, conv: u64, known: bool) -> bool {
    !s.sessions.contains_key(conv) && (known ==> s.tombstones.contains_key(conv))
}

proof fn lemma_overdue_polled(st: Step, elapsed_ms: u64, conv: u64)
    requires
        overdue(st.core, elapsed_ms, conv),
    ensures
        ended(
            model::session_polled(st, elapsed_ms, conv).core,
            conv,
            st.core.sessions[conv].phase != SessionPhase::PendingRemote,
        ),
{
    reveal(model::session_polled);
    reveal(model::close_announced);
    reveal(model::closed_finished);
    let session = st.core.sessions[conv];
    let (kcp, packets) = session::polled(session.kcp, elapsed_ms);
    let kept = model::with_core(
        st,
        model::put_session(st.core, conv, SessionState { kcp, ..session }),
    );
    lemma_packets_sent_scope(kept, elapsed_ms, packets);
}

proof fn lemma_sessions_polled(
    st: Step,
    elapsed_ms: u64,
    convs: Seq<u64>,
    conv: u64,
    known: bool,
)
    requires
        forall|i: int, j: int| 0 <= i < j < convs.len() ==> convs[i] < convs[j],
        forall|i: int|
            0 <= i < convs.len() ==> st.core.sessions.contains_key(#[trigger] convs[i]),
        if convs.contains(conv) {
            overdue(st.core, elapsed_ms, conv) && known == (st.core.sessions[conv].phase
                != SessionPhase::PendingRemote)
        } else {
            ended(st.core, conv, known)
        },
    ensures
        ended(model::sessions_polled(st, elapsed_ms, convs).core, conv, known),
    decreases convs.len(),
{
    reveal(model::sessions_polled);
    if convs.len() > 0 {
        let first = convs[0];
        let rest = convs.drop_first();
        let next = model::session_polled(st, elapsed_ms, first);
        lemma_session_polled_scope(st, elapsed_ms, first);
        assert forall|i: int| 0 <= i < rest.len() implies next.core.sessions.contains_key(
            #[trigger] rest[i],
        ) by {
            assert(rest[i] == convs[i + 1]);
            assert(untouched(st, next, rest[i]));
        }
        if first == conv {
            lemma_overdue_polled(st, elapsed_ms, conv);
            assert(convs[0] == conv);
            assert(!rest.contains(conv)) by {
                if rest.contains(conv) {
                    let i = choose|i: int| 0 <= i < rest.len() && rest[i] == conv;
                    assert(convs[i + 1] == conv);
                }
            }
        } else {
            assert(untouched(st, next, conv));
            assert(rest.contains(conv) == convs.contains(conv)) by {
                if rest.contains(conv) {
                    let i = choose|i: int| 0 <= i < rest.len() && rest[i] == conv;
                    assert(convs[i + 1] == conv);
                }
                if convs.contains(conv) {
                    let i = choose|i: int| 0 <= i < convs.len() && convs[i] == conv;
                    assert(rest[i - 1] == conv);
                }
            }
        }
        lemma_sessions_polled(next, elapsed_ms, rest, conv, known);
    }
}

/// A session does not outlive its close deadline: when the endpoint is polled at or after it,
/// the session is gone and, where the shell knew it, remembered as closed.
pub proof fn law_closing_session_ends(st: Step, elapsed_ms: u64, conv: u64)
    requires
        st.core.sessions.dom().finite(),
        overdue(st.core, elapsed_ms, conv),
        elapsed_ms < u64::MAX,
    ensures
        ended(
            model::polled(st, elapsed_ms).core,
            conv,
            st.core.sessions[conv].phase != SessionPhase::PendingRemote,
        ),
{
    let known = st.core.sessions[conv].phase != SessionPhase::PendingRemote;
    let ids = ordered::ascending_pairs(st.core.outstanding.dom());
    let fed = model::samples_expired(st.core, elapsed_ms, ids);
    lemma_samples_expired_scope(st.core, elapsed_ms, ids);
    reveal(model::senders_expired);
    let reset = model::senders_expired(model::with_core(st, fed), elapsed_ms);
    let now = machine::tick_at(fed.params.boot_time_ms, elapsed_ms);
    let expired = sequence::expiring(fed.filter, now, model::SEQUENCE_SOFT_CAP as nat);
    let forgetful = EndpointState { filter: sequence::without(fed.filter, expired), ..fed };
    lemma_senders_reset(model::with_core(st, forgetful), elapsed_ms, expired, conv);
    let forgotten = model::with_core(
        reset,
        EndpointState {
            tombstones: model::tombstones_kept(reset.core.tombstones, elapsed_ms),
            ..reset.core
        },
    );
    let convs = ordered::ascending(forgotten.core.sessions.dom());
    ordered::lemma_ascending_exists(forgotten.core.sessions.dom());
    assert(forgotten.core.sessions.dom().contains(conv) == convs.contains(conv));
    assert forall|i: int| 0 <= i < convs.len() implies forgotten.core.sessions.contains_key(
        #[trigger] convs[i],
    ) by {
        assert(convs.contains(convs[i]));
        assert(forgotten.core.sessions.dom().contains(convs[i]));
    }
    lemma_sessions_polled(forgotten, elapsed_ms, convs, conv, known);
    let polled = model::sessions_polled(forgotten, elapsed_ms, convs);
    reveal(model::kept_alive);
    let sample = model::feedback_due(polled.core, elapsed_ms);
    lemma_message_sent_scope(
        polled,
        elapsed_ms,
        wire::EndpointMessageState::KeepAlive { reply_depth: model::depth_of_sample(sample) },
        sample,
    );
}

// ---------------------------------------------------------------------------
// Reliable, ordered delivery
// ---------------------------------------------------------------------------

/// All messages up to `m` are whole in the receiver.
pub open spec fn whole_up_to(
    s: kcp::model::KcpState,
    messages: spec_fn(int) -> Seq<u8>,
    mss: int,
    k: int,
    m: int,
) -> bool {
    k <= m && arrival::has_all(s, messages, mss, k, m)
}

proof fn lemma_drained_in_order(
    s: kcp::model::KcpState,
    stream: spec_fn(int) -> (u8, Seq<u8>),
    messages: spec_fn(int) -> Seq<u8>,
    mss: int,
    k: int,
) -> (n: nat)
    requires
        kcp::model::well_formed(s),
        arrival::moved_up(s),
        delivery::carries(stream, messages, mss),
        delivery::received_up_to(s, stream, messages, mss, k),
    ensures
        ({
            let end = session::drained(s).0;
            &&& session::drained(s).1 == Seq::new(n, |i: int| messages(k + i))
            &&& delivery::received_up_to(end, stream, messages, mss, k + n)
            &&& kcp::model::well_formed(end)
            &&& arrival::moved_up(end)
            &&& end.rcv_wnd == s.rcv_wnd
            &&& forall|m: int| #[trigger] whole_up_to(s, messages, mss, k, m) ==> m <= k + n
            &&& forall|i: int|
                arrival::has_segment(
                    s,
                    delivery::first_of(messages, mss, k) + s.rcv_queue.len(),
                    i,
                ) ==> #[trigger] arrival::has_segment(
                    end,
                    delivery::first_of(messages, mss, k + n) + end.rcv_queue.len(),
                    i,
                )
        }),
    decreases s.rcv_queue.len() + s.rcv_buf.len(),
{
    if kcp::model::peek(s) is Ok {
        let t = kcp::model::after_recv(s);
        arrival::lemma_recv_step(s, stream, messages, mss, k);
        kcp::laws::lemma_after_recv_shrinks(s);
        let n = lemma_drained_in_order(t, stream, messages, mss, k + 1);
        assert(session::drained(s).1 =~= Seq::new(n + 1, |i: int| messages(k + i)));
        let here = delivery::first_of(messages, mss, k) + s.rcv_queue.len();
        let next = delivery::first_of(messages, mss, k + 1) + t.rcv_queue.len();
        let end = session::drained(s).0;
        let last = delivery::first_of(messages, mss, k + 1 + n) + end.rcv_queue.len();
        assert forall|i: int| arrival::has_segment(s, here, i) implies #[trigger]
        arrival::has_segment(end, last, i) by {
            assert(arrival::has_segment(t, next, i));
        }
        assert forall|m: int| #[trigger] whole_up_to(s, messages, mss, k, m) implies m <= k + 1
            + n by {
            if m > k {
                assert(arrival::has_all(t, messages, mss, k + 1, m)) by {
                    assert forall|i: int|
                        delivery::first_of(messages, mss, k + 1) <= i < delivery::first_of(
                            messages,
                            mss,
                            m,
                        ) implies #[trigger] arrival::has_segment(t, next, i) by {
                        assert(arrival::has_segment(s, here, i));
                    }
                }
                assert(whole_up_to(t, messages, mss, k + 1, m));
            }
        }
        n + 1
    } else {
        assert(session::drained(s).1 =~= Seq::new(0, |i: int| messages(k + i)));
        assert forall|m: int| #[trigger] whole_up_to(s, messages, mss, k, m) implies m <= k by {
            if m > k {
                arrival::lemma_all_handed_on(s, stream, messages, mss, k, m, 0);
            }
        }
        0
    }
}

/// All segments of the messages up to `m` are in the receiver or in the packet, and the
/// window has room for them.
pub open spec fn completed_by(
    s: kcp::model::KcpState,
    packet: Seq<u8>,
    messages: spec_fn(int) -> Seq<u8>,
    mss: int,
    k: int,
    m: int,
) -> bool {
    let base = delivery::first_of(messages, mss, k);
    let end = delivery::first_of(messages, mss, m);
    &&& k <= m
    &&& end - base <= s.rcv_wnd
    &&& forall|i: int|
        base <= i < end ==> arrival::has_segment(s, base + s.rcv_queue.len(), i)
            || arrival::gives(s.conv, packet, #[trigger] arrival::serial(i))
}

/// A session is reliable and ordered. Whatever packets of the peer arrive, in whatever order
/// and however often, what comes out are the messages that the peer has sent, each once and
/// one after the other. Every message comes out as soon as its segments and those of the
/// messages before it have come, and no segment that has come in the window is lost.
pub proof fn law_messages_arrive_in_order(
    s: kcp::model::KcpState,
    elapsed_ms: u64,
    packet: Seq<u8>,
    stream: spec_fn(int) -> (u8, Seq<u8>),
    messages: spec_fn(int) -> Seq<u8>,
    mss: int,
    k: int,
) -> (n: nat)
    requires
        kcp::model::well_formed(s),
        arrival::moved_up(s),
        delivery::carries(stream, messages, mss),
        delivery::received_up_to(s, stream, messages, mss, k),
        delivery::all_genuine(packet, stream, delivery::first_of(messages, mss, k)),
    ensures
        ({
            let taken = session::packet_taken(s, elapsed_ms, packet);
            let base = delivery::first_of(messages, mss, k);
            &&& taken.messages == Seq::new(n, |i: int| messages(k + i))
            &&& delivery::received_up_to(taken.kcp, stream, messages, mss, k + n)
            &&& arrival::moved_up(taken.kcp)
            &&& forall|m: int| #[trigger]
                completed_by(s, packet, messages, mss, k, m) ==> m <= k + n
            &&& forall|i: int|
                arrival::has_segment(s, base + s.rcv_queue.len(), i) || (arrival::gives(
                    s.conv,
                    packet,
                    arrival::serial(i),
                ) && arrival::near(i, base) && i < base + s.rcv_wnd)
                    ==> #[trigger] arrival::has_segment(
                    taken.kcp,
                    delivery::first_of(messages, mss, k + n) + taken.kcp.rcv_queue.len(),
                    i,
                )
        }),
{
    reveal(session::packet_taken);
    reveal(session::flushed_now);
    let now = session::kcp_time(elapsed_ms);
    let base = delivery::first_of(messages, mss, k);
    delivery::lemma_first_of(messages, mss, k);
    delivery::law_input_keeps_the_stream(s, now, packet, stream, messages, mss, k);
    arrival::law_input_keeps_every_segment(s, now, packet, base);
    let taken = kcp::model::input_at(s, now, packet).0;
    let clocked = kcp::model::KcpState { current: now, ..s };
    kcp::laws::lemma_same_queues(s, clocked);
    kcp::laws::lemma_input_well_formed(clocked, packet);
    let updated = kcp::model::update(taken, now);
    kcp::laws::lemma_update_frame(taken, now);
    let sent = kcp::model::flushed(updated);
    kcp::laws::lemma_flushed_frame(updated);
    kcp::laws::lemma_flushed_well_formed(updated);
    let flushed = session::emptied(sent).0;
    kcp::laws::lemma_same_queues(sent, flushed);
    assert forall|sn: u32| #[trigger] kcp::model::recv_offset(flushed, sn)
        == kcp::model::recv_offset(taken, sn) by {}
    assert(delivery::received_up_to(flushed, stream, messages, mss, k));
    arrival::lemma_same_segments(taken, flushed, base + taken.rcv_queue.len());
    let n = lemma_drained_in_order(flushed, stream, messages, mss, k);
    let here = base + flushed.rcv_queue.len();
    assert forall|m: int| #[trigger] completed_by(s, packet, messages, mss, k, m) implies m <= k
        + n by {
        assert(arrival::has_all(flushed, messages, mss, k, m)) by {
            assert forall|i: int|
                base <= i < delivery::first_of(messages, mss, m) implies #[trigger]
            arrival::has_segment(flushed, here, i) by {
                let sn = arrival::serial(i);
                assert(arrival::near(i, base));
                assert(arrival::has_segment(taken, here, i));
            }
        }
        assert(whole_up_to(flushed, messages, mss, k, m));
    }
    let end = session::drained(flushed).0;
    let last = delivery::first_of(messages, mss, k + n) + end.rcv_queue.len();
    assert forall|i: int|
        arrival::has_segment(s, base + s.rcv_queue.len(), i) || (arrival::gives(
            s.conv,
            packet,
            arrival::serial(i),
        ) && arrival::near(i, base) && i < base + s.rcv_wnd) implies #[trigger]
    arrival::has_segment(end, last, i) by {
        assert(arrival::has_segment(taken, here, i));
        assert(arrival::has_segment(flushed, here, i));
    }
    n
}

/// The data messages among those that the peer has sent.
pub open spec fn all_data(sent: spec_fn(int) -> wire::SessionMessageState, k: int) -> bool {
    forall|i: int| k <= i ==> (#[trigger] sent(i)) is Data
}

/// What the shell has to write for the data messages from `k` on.
pub open spec fn writes(
    conv: u64,
    sent: spec_fn(int) -> wire::SessionMessageState,
    k: int,
    n: nat,
) -> Seq<ActionState> {
    Seq::new(n, |i: int| ActionState::WriteSession { conv_id: conv, bytes: sent(k + i)->bytes })
}

proof fn lemma_data_received(
    st: Step,
    elapsed_ms: u64,
    conv: u64,
    sent: spec_fn(int) -> wire::SessionMessageState,
    k: int,
    n: nat,
)
    requires
        st.core.sessions.contains_key(conv),
        st.core.sessions[conv].phase == SessionPhase::Open,
        all_data(sent, k),
    ensures
        model::messages_received(
            st,
            elapsed_ms,
            conv,
            Seq::new(n, |i: int| wire::encode_session(sent(k + i))),
        ) == (Step { actions: st.actions + writes(conv, sent, k, n), ..st }),
    decreases n,
{
    reveal(model::messages_received);
    let all = Seq::new(n, |i: int| wire::encode_session(sent(k + i)));
    if n == 0 {
        assert(st.actions + writes(conv, sent, k, n) =~= st.actions);
    } else {
        reveal(model::session_received);
        let m = sent(k + 0);
        assert(m is Data);
        wire::law_session_message_roundtrip(m);
        assert(all[0] == wire::encode_session(m));
        let next = model::session_received(st, elapsed_ms, conv, m);
        assert(all.drop_first() =~= Seq::new(
            (n - 1) as nat,
            |i: int| wire::encode_session(sent(k + 1 + i)),
        ));
        assert(all_data(sent, k + 1));
        lemma_data_received(next, elapsed_ms, conv, sent, k + 1, (n - 1) as nat);
        assert(st.actions.push(ActionState::WriteSession { conv_id: conv, bytes: m->bytes })
            + writes(conv, sent, k + 1, (n - 1) as nat) =~= st.actions + writes(
            conv,
            sent,
            k,
            n,
        ));
    }
}

/// What the peer writes to an open session is what the shell is told to write, byte for byte,
/// each write once and in order: whatever packet of the peer arrives, the writes that it
/// completes follow those that have been handed on, behind the packets that answer it. Every
/// write whose segments have all come is among them.
pub proof fn law_writes_arrive_in_order(
    st: Step,
    elapsed_ms: u64,
    peer_seq: u64,
    packet: Seq<u8>,
    stream: spec_fn(int) -> (u8, Seq<u8>),
    sent: spec_fn(int) -> wire::SessionMessageState,
    mss: int,
    k: int,
) -> (n: nat)
    requires
        ({
            let conv = kcp::model::conv_of(packet);
            let messages = |i: int| wire::encode_session(sent(i));
            let session = st.core.sessions[conv];
            &&& !st.core.tombstones.contains_key(conv)
            &&& !model::foreign(st.core, peer_seq, conv)
            &&& st.core.sessions.contains_key(conv)
            &&& session.phase == SessionPhase::Open
            &&& kcp::model::well_formed(session.kcp)
            &&& arrival::moved_up(session.kcp)
            &&& delivery::carries(stream, messages, mss)
            &&& delivery::received_up_to(session.kcp, stream, messages, mss, k)
            &&& delivery::all_genuine(packet, stream, delivery::first_of(messages, mss, k))
            &&& all_data(sent, k)
        }),
    ensures
        ({
            let conv = kcp::model::conv_of(packet);
            let messages = |i: int| wire::encode_session(sent(i));
            let after = model::kcp_received(st, elapsed_ms, peer_seq, packet);
            let taken = session::packet_taken(st.core.sessions[conv].kcp, elapsed_ms, packet);
            let answered = model::packets_sent(
                packet_kept(st, elapsed_ms, peer_seq, packet),
                elapsed_ms,
                taken.packets,
            );
            &&& after.actions == answered.actions + writes(conv, sent, k, n)
            &&& after.core.sessions.contains_key(conv)
            &&& delivery::received_up_to(
                after.core.sessions[conv].kcp,
                stream,
                messages,
                mss,
                k + n,
            )
            &&& arrival::moved_up(after.core.sessions[conv].kcp)
            &&& forall|m: int| #[trigger]
                completed_by(st.core.sessions[conv].kcp, packet, messages, mss, k, m) ==> m <= k
                    + n
        }),
{
    reveal(model::kcp_received);
    reveal(model::close_announced);
    reveal(model::closed_finished);
    let conv = kcp::model::conv_of(packet);
    let messages = |i: int| wire::encode_session(sent(i));
    let session = model::addressed_session(st.core, elapsed_ms, peer_seq, conv);
    let taken = session::packet_taken(session.kcp, elapsed_ms, packet);
    let n = law_messages_arrive_in_order(
        session.kcp,
        elapsed_ms,
        packet,
        stream,
        messages,
        mss,
        k,
    );
    let kept = packet_kept(st, elapsed_ms, peer_seq, packet);
    let answered = model::packets_sent(kept, elapsed_ms, taken.packets);
    lemma_packets_sent_scope(kept, elapsed_ms, taken.packets);
    assert(taken.messages =~= Seq::new(n, |i: int| wire::encode_session(sent(k + i))));
    lemma_data_received(answered, elapsed_ms, conv, sent, k, n);
    n
}

/// All packets belong to the stream.
pub open spec fn packets_genuine(
    packets: Seq<Seq<u8>>,
    stream: spec_fn(int) -> (u8, Seq<u8>),
    base: int,
) -> bool {
    forall|i: int|
        0 <= i < packets.len() ==> delivery::all_genuine(#[trigger] packets[i], stream, base)
}

pub proof fn lemma_flushed_now_sends(
    s: kcp::model::KcpState,
    elapsed_ms: u64,
    stream: spec_fn(int) -> (u8, Seq<u8>),
    messages: spec_fn(int) -> Seq<u8>,
    una: int,
    n: int,
    base: int,
)
    requires
        kcp::model::well_formed(s),
        s.output.len() == 0,
        delivery::sent_up_to(s, stream, messages, una, n),
        base - 0x8000_0000 <= una < base + 0x7fff_0000,
    ensures
        delivery::sent_up_to(
            session::flushed_now(s, elapsed_ms).0,
            stream,
            messages,
            una,
            n,
        ),
        packets_genuine(session::flushed_now(s, elapsed_ms).1, stream, base),
{
    reveal(session::flushed_now);
    let now = session::kcp_time(elapsed_ms);
    assert(kcp::model::data_len_of(s.buf) >= 0);
    assert(delivery::output_genuine(s, stream, base));
    delivery::law_update_sends_the_stream(s, now, stream, messages, una, n, base);
    let updated = kcp::model::update(s, now);
    kcp::laws::lemma_update_frame(s, now);
    delivery::law_flush_sends_the_stream(updated, stream, messages, una, n, base);
    let sent = kcp::model::flushed(updated);
    delivery::lemma_sends_frame(sent, session::emptied(sent).0, stream, una);
}

/// What a session sends are its messages, one after the other: a message that it takes is the
/// next one, and the packets that go out hold nothing but segments of its messages.
pub proof fn law_session_sends_in_order(
    s: kcp::model::KcpState,
    elapsed_ms: u64,
    stream: spec_fn(int) -> (u8, Seq<u8>),
    sent: spec_fn(int) -> wire::SessionMessageState,
    una: int,
    n: int,
    base: int,
)
    requires
        ({
            let messages = |i: int| wire::encode_session(sent(i));
            &&& kcp::model::well_formed(s)
            &&& s.output.len() == 0
            &&& delivery::carries(stream, messages, s.mss as int)
            &&& delivery::sent_up_to(s, stream, messages, una, n)
            &&& kcp::model::send(s, messages(n)).1 is Ok
            &&& base - 0x8000_0000 <= una < base + 0x7fff_0000
        }),
    ensures
        ({
            let messages = |i: int| wire::encode_session(sent(i));
            let (after, packets) = session::message_sent(s, elapsed_ms, sent(n));
            &&& delivery::sent_up_to(after, stream, messages, una, n + 1)
            &&& packets_genuine(packets, stream, base)
        }),
{
    reveal(session::message_sent);
    let messages = |i: int| wire::encode_session(sent(i));
    delivery::law_send_continues_the_stream(s, stream, messages, una, n);
    let queued = kcp::model::send(s, messages(n)).0;
    kcp::laws::lemma_send_well_formed(s, messages(n));
    lemma_flushed_now_sends(queued, elapsed_ms, stream, messages, una, n + 1, base);
}

/// A packet of the peer acknowledges messages and takes none back, and the packets that
/// answer it hold nothing but segments of the session's messages.
pub proof fn law_session_keeps_its_messages(
    s: kcp::model::KcpState,
    elapsed_ms: u64,
    packet: Seq<u8>,
    stream: spec_fn(int) -> (u8, Seq<u8>),
    messages: spec_fn(int) -> Seq<u8>,
    una: int,
    n: int,
    base: int,
) -> (next: int)
    requires
        kcp::model::well_formed(s),
        s.output.len() == 0,
        delivery::sent_up_to(s, stream, messages, una, n),
        base - 0x8000_0000 <= una < base + 0x7ffe_0000,
    ensures
        una <= next,
        base - 0x8000_0000 <= next < base + 0x7fff_0000 ==> {
            let taken = session::packet_taken(s, elapsed_ms, packet);
            &&& delivery::sent_up_to(taken.kcp, stream, messages, next, n)
            &&& packets_genuine(taken.packets, stream, base)
        },
{
    reveal(session::packet_taken);
    let now = session::kcp_time(elapsed_ms);
    let clocked = kcp::model::KcpState { current: now, ..s };
    kcp::laws::lemma_same_queues(s, clocked);
    kcp::laws::lemma_input_well_formed(clocked, packet);
    kcp::laws::lemma_input_frame(clocked, packet);
    let next = delivery::law_input_keeps_what_is_sent(
        s,
        now,
        packet,
        stream,
        messages,
        una,
        n,
    );
    if base - 0x8000_0000 <= next < base + 0x7fff_0000 {
        let taken = kcp::model::input_at(s, now, packet).0;
        lemma_flushed_now_sends(taken, elapsed_ms, stream, messages, next, n, base);
        let flushed = session::flushed_now(taken, elapsed_ms).0;
        lemma_drained_sends(flushed, stream, next);
        let end = session::drained(flushed).0;
        assert(kcp::model::send_offset(end, end.snd_nxt) == kcp::model::send_offset(
            flushed,
            flushed.snd_nxt,
        ));
    }
    next
}

proof fn lemma_drained_sends(
    s: kcp::model::KcpState,
    stream: spec_fn(int) -> (u8, Seq<u8>),
    una: int,
)
    requires
        delivery::sends(s, stream, una),
    ensures
        delivery::sends(session::drained(s).0, stream, una),
        session::drained(s).0.snd_una == s.snd_una,
        session::drained(s).0.snd_nxt == s.snd_nxt,
        session::drained(s).0.snd_queue == s.snd_queue,
        session::drained(s).0.mss == s.mss,
    decreases s.rcv_queue.len() + s.rcv_buf.len(),
{
    if kcp::model::peek(s) is Ok {
        kcp::laws::lemma_after_recv_shrinks(s);
        let taken = kcp::model::KcpState {
            rcv_queue: kcp::model::after_message(s.rcv_queue),
            ..s
        };
        delivery::lemma_move_buf_sends(taken);
        delivery::lemma_sends_frame(s, kcp::model::after_recv(s), stream, una);
        lemma_drained_sends(kcp::model::after_recv(s), stream, una);
    }
}

/// Some packet holds the data segment with this serial number.
pub open spec fn one_gives(conv: u64, packets: Seq<Seq<u8>>, sn: u32) -> bool {
    exists|p: int| 0 <= p < packets.len() && arrival::gives(conv, #[trigger] packets[p], sn)
}

/// What is not acknowledged goes out again. Segment `i` of those under way, once its time has
/// come, is among the packets of the next flush of the timers, and among those that go out with
/// the next message or with the answer to the next packet, whichever comes first.
pub proof fn law_session_sends_again(s: kcp::model::KcpState, elapsed_ms: u64, i: int)
    requires
        kcp::model::well_formed(s),
        s.output.len() == 0,
        resend::addressed(s),
        0 <= i < s.snd_buf.len(),
        kcp::model::timediff(session::kcp_time(elapsed_ms), s.snd_buf[i].resendts) >= 0,
    ensures
        kcp::model::tick(s, session::kcp_time(elapsed_ms)).1 ==> one_gives(
            s.conv,
            session::polled(s, elapsed_ms).1,
            s.snd_buf[i].sn,
        ),
        one_gives(s.conv, session::flushed_now(s, elapsed_ms).1, s.snd_buf[i].sn),
{
    reveal(session::flushed_now);
    reveal(session::polled);
    let now = session::kcp_time(elapsed_ms);
    let sn = s.snd_buf[i].sn;
    let updated = kcp::model::update(s, now);
    kcp::laws::lemma_update_frame(s, now);
    resend::law_sender_is_addressed(s, s.conv, arbitrary(), now, Seq::empty());
    kcp::laws::lemma_flushed_frame(updated);
    let sent = kcp::model::flushed(updated);
    if kcp::model::tick(s, now).1 {
        resend::law_overdue_segment_goes_out_again(s, now, i);
        let p = choose|p: int|
            s.output.len() <= p < updated.output.len() && arrival::gives(
                updated.conv,
                #[trigger] updated.output[p],
                sn,
            );
        assert(arrival::gives(s.conv, updated.output[p], sn));
        resend::lemma_flush_keeps_output(updated);
        assert(sent.output[p] == updated.output[p]);
    } else {
        resend::law_flush_sends_what_is_due(updated);
        assert(updated.snd_buf[i] == s.snd_buf[i]);
        assert(sent.snd_buf[i].sn == sn);
        assert(resend::goes_out(updated, sent, sent.snd_buf[i].sn));
        let p = choose|p: int|
            updated.output.len() <= p < sent.output.len() && arrival::gives(
                sent.conv,
                #[trigger] sent.output[p],
                sn,
            );
        assert(arrival::gives(s.conv, sent.output[p], sn));
    }
}

/// What a session sends are packets that its peer can take: runs of whole segments of the
/// conversation, with nothing behind the last one.
pub proof fn law_session_packets_are_whole(s: kcp::model::KcpState, elapsed_ms: u64)
    requires
        kcp::model::well_formed(s),
        s.output.len() == 0,
        resend::addressed(s),
    ensures
        forall|p: int|
            0 <= p < session::polled(s, elapsed_ms).1.len() ==> resend::readable(
                s.conv,
                #[trigger] session::polled(s, elapsed_ms).1[p],
            ),
        forall|p: int|
            0 <= p < session::flushed_now(s, elapsed_ms).1.len() ==> resend::readable(
                s.conv,
                #[trigger] session::flushed_now(s, elapsed_ms).1[p],
            ),
{
    reveal(session::flushed_now);
    reveal(session::polled);
    let now = session::kcp_time(elapsed_ms);
    let ticked = kcp::model::tick(s, now).0;
    let updated = kcp::model::update(s, now);
    let sent = kcp::model::flushed(updated);
    kcp::laws::lemma_same_queues(s, ticked);
    assert(resend::addressed(ticked));
    kcp::laws::lemma_update_frame(s, now);
    resend::law_sender_is_addressed(s, s.conv, arbitrary(), now, Seq::empty());
    assert forall|p: int| 0 <= p < updated.output.len() implies resend::readable(
        s.conv,
        #[trigger] updated.output[p],
    ) by {
        resend::law_flush_makes_readable_packets(ticked, p);
    }
    resend::lemma_flush_keeps_output(updated);
    assert forall|p: int| 0 <= p < sent.output.len() implies resend::readable(
        s.conv,
        #[trigger] sent.output[p],
    ) by {
        if p < updated.output.len() {
            assert(sent.output[p] == updated.output[p]);
        } else {
            resend::law_flush_makes_readable_packets(updated, p);
        }
    }
}

/// The shell is asked in time: the deadline of a session is no later than the moment at which
/// one of its segments has to go out again.
pub proof fn law_deadline_meets_resend(session: SessionState, elapsed_ms: u64, i: int)
    requires
        0 <= i < session.kcp.snd_buf.len(),
    ensures
        session::session_deadline(session, elapsed_ms) <= elapsed_ms + kcp::model::max(
            kcp::model::timediff(
                session.kcp.snd_buf[i].resendts,
                session::kcp_time(elapsed_ms),
            ),
            0,
        ),
{
    let now = session::kcp_time(elapsed_ms);
    resend::lemma_resend_wait(session.kcp.snd_buf, now, i);
    let wait = kcp::model::check(session.kcp, now);
    assert(0 <= wait <= kcp::model::max(
        kcp::model::timediff(session.kcp.snd_buf[i].resendts, now),
        0,
    ));
}

// ---------------------------------------------------------------------------
// The life of a session
// ---------------------------------------------------------------------------

/// The phases of a session, as the messages of the peer drive them. The first message has to
/// open the session, or it is gone; opening it again changes nothing; data is handed to the
/// shell while the session is open; a close ends an open session; and a session that is
/// closing hears nothing more.
pub proof fn law_session_phases(
    st: Step,
    elapsed_ms: u64,
    conv: u64,
    m: wire::SessionMessageState,
)
    requires
        st.core.sessions.contains_key(conv),
    ensures
        ({
            let phase = st.core.sessions[conv].phase;
            let after = model::session_received(st, elapsed_ms, conv, m);
            let there = after.core.sessions.contains_key(conv);
            let next = after.core.sessions[conv].phase;
            match (phase, m) {
                (SessionPhase::PendingRemote, wire::SessionMessageState::Open) => {
                    &&& there && next == SessionPhase::Open
                    &&& after.actions == st.actions.push(
                        ActionState::OpenSession { conv_id: conv },
                    )
                },
                (SessionPhase::PendingRemote, _) => !there && after.actions == st.actions,
                (SessionPhase::Open, wire::SessionMessageState::Open) => after == st,
                (SessionPhase::Open, wire::SessionMessageState::Data { bytes }) => {
                    &&& there && next == SessionPhase::Open
                    &&& after.actions == st.actions.push(
                        ActionState::WriteSession { conv_id: conv, bytes },
                    )
                },
                (SessionPhase::Open, wire::SessionMessageState::Close { reason }) => {
                    &&& there && next == SessionPhase::ClosingRemote
                    &&& after.actions == st.actions.push(
                        ActionState::CloseSession { conv_id: conv, reason },
                    )
                },
                _ => {
                    &&& after.core.sessions == st.core.sessions
                    &&& after.actions == st.actions
                },
            }
        }),
{
    reveal(model::session_received);
}

/// What arrives for a session that has been closed is dropped as long as it is remembered.
pub proof fn law_closed_session_stays_closed(
    st: Step,
    elapsed_ms: u64,
    peer_seq: u64,
    packet: Seq<u8>,
)
    requires
        st.core.tombstones.contains_key(kcp::model::conv_of(packet)),
    ensures
        model::kcp_received(st, elapsed_ms, peer_seq, packet) == model::with_core(
            st,
            model::count_dropped(st.core),
        ),
{
    reveal(model::kcp_received);
}

} // verus!
