//! What an endpoint sends, and what it makes of the answers.
use vstd::prelude::*;

use crate::crypto;
use crate::endpoint::guarantees;
use crate::endpoint::guarantees::{authentic, message_in, stamp_in};
use crate::endpoint::laws;
use crate::endpoint::model;
use crate::endpoint::model::{EndpointParams, EndpointState, SampleState, Step};
use crate::endpoint::session;
use crate::endpoint::session::{SessionPhase, SessionState};
use crate::kcp;
use crate::kcp::delivery;
use crate::machine::{ActionState, CloseReason, CoreEventResult, CoreMetrics, EventState};
use crate::ordered;
use crate::packet;
use crate::packet::TransportPacketError;
use crate::planning;
use crate::random;
use crate::routing;
use crate::routing::EdgeId;
use crate::sequence;
use crate::wire;
use crate::wire::{EndpointMessageState, EnvelopeStamp};

verus! {

// ---------------------------------------------------------------------------
// Packets
// ---------------------------------------------------------------------------

/// The cipher opens what it has sealed, under a key and a nonce of 16 bytes each.
pub open spec fn cipher_opens() -> bool {
    forall|key: Seq<u8>, nonce: Seq<u8>, message: Seq<u8>, ad: Seq<u8>|
        key.len() == 16 && nonce.len() == 16 ==> {
            let sealed = #[trigger] crypto::aegis_sealed(key, nonce, message, ad);
            &&& sealed.0.len() == message.len()
            &&& sealed.1.len() == 16
            &&& crypto::aegis_opened(key, nonce, sealed.0, sealed.1, ad) == Some(message)
        }
}

/// The keys have the length that the cipher takes.
pub open spec fn has_keys(p: EndpointParams) -> bool {
    p.envelope_key.len() == 16 && p.message_key.len() == 16
}

/// The action sends a packet over the channels of a plan, the first of which is local. Under
/// the keys of the endpoint it opens to an envelope with this stamp, and that to the message.
pub open spec fn sends(
    p: EndpointParams,
    action: ActionState,
    plan: Seq<u16>,
    stamp: EnvelopeStamp,
    m: EndpointMessageState,
) -> bool {
    &&& action matches ActionState::SendTransportPacket { channel_id, bytes }
    &&& plan.len() > 0
    &&& channel_id == plan[0]
    &&& bytes.len() <= p.mtu
    &&& packet::decode_packet(p.envelope_key, bytes) matches Ok(e)
    &&& e.route_plan == plan.drop_first()
    &&& wire::stamp_of(e) == stamp
    &&& model::opened_message(p.message_key, stamp, e.payload) matches Some(plain)
    &&& wire::decode_endpoint(plain) == Some(m)
}

proof fn lemma_message_opens(p: EndpointParams, stamp: EnvelopeStamp, m: EndpointMessageState)
    requires
        cipher_opens(),
        has_keys(p),
        wire::endpoint_fits(m),
    ensures
        ({
            let payload = model::sealed_message(p.message_key, stamp, m);
            &&& payload.len() == 16 + wire::encode_endpoint(m).len()
            &&& model::opened_message(p.message_key, stamp, payload) == Some(
                wire::encode_endpoint(m),
            )
            &&& wire::decode_endpoint(wire::encode_endpoint(m)) == Some(m)
        }),
{
    let nonce = wire::header_bytes(stamp, 0);
    wire::lemma_header_len(stamp, 0);
    let plain = wire::encode_endpoint(m);
    let sealed = crypto::aegis_sealed(p.message_key, nonce, plain, Seq::empty());
    let payload = model::sealed_message(p.message_key, stamp, m);
    assert(payload.take(16) =~= sealed.1);
    assert(payload.skip(16) =~= sealed.0);
    wire::law_endpoint_message_roundtrip(m);
}

pub proof fn lemma_packet_opens(key: Seq<u8>, r: random::RandomState, e: wire::EnvelopeState)
    requires
        cipher_opens(),
        key.len() == 16,
        wire::envelope_fits(e),
        48 + e.payload.len() + 2 * e.route_plan.len() + e.padding_len <= 65536,
    ensures
        ({
            let bytes = packet::encode_packet(key, r, e);
            &&& bytes.len() == 48 + e.payload.len() + 2 * e.route_plan.len() + e.padding_len
            &&& packet::decode_packet(key, bytes) == Ok::<
                wire::EnvelopeState,
                packet::TransportPacketError,
            >(e)
        }),
{
    let nonce = random::next_bytes(r, 16);
    let plain = wire::encode_envelope(e);
    wire::lemma_envelope_len(e);
    let sealed = crypto::aegis_sealed(key, nonce, plain, Seq::empty());
    let bytes = packet::encode_packet(key, r, e);
    assert(bytes.subrange(0, 16) =~= nonce);
    assert(bytes.subrange(16, 32) =~= sealed.1);
    assert(bytes.skip(32) =~= sealed.0);
    wire::law_envelope_roundtrip(e);
}

/// The number that the next packet gets, and the tick that it is stamped with: the count goes
/// on under the own sender id, and starts again under another one where it is used up.
pub open spec fn stamps_next(s: EndpointState, elapsed_ms: u64, stamp: EnvelopeStamp) -> bool {
    let now = if s.params.boot_time_ms + elapsed_ms <= 0xffff_ffff_ffff_ffff {
        s.params.boot_time_ms + elapsed_ms
    } else {
        0xffff_ffff_ffff_ffff
    };
    &&& stamp.time == now / 1024 % 0x400_0000
    &&& s.next_seq_no < 0x1_0000_0000_0000 ==> stamp.seq_id == s.seq_id && stamp.seq_no
        == s.next_seq_no
    &&& s.next_seq_no >= 0x1_0000_0000_0000 ==> stamp.seq_no == 0 && stamp.seq_id
        < 0x1_0000_0000_0000
}

/// The sum of a time and a wait, at most the greatest time.
pub open spec fn after(time: u64, wait: int) -> int {
    if time + wait <= 0xffff_ffff_ffff_ffff {
        time + wait
    } else {
        0xffff_ffff_ffff_ffff
    }
}

/// The size that routes are planned for: the message, its tag, and the bytes around it.
pub open spec fn planned_size(s: EndpointState, m: EndpointMessageState) -> int {
    wire::encode_endpoint(m).len() + 16 + s.params.scheduled_packet_overhead
}

/// A message goes out wherever a route takes it: in one packet, which opens to it under the
/// keys of the endpoint, with the next number and the time of its making, over a route whose
/// edges are past their cooldowns. A sample is noted with its route, its time and its
/// deadline, and the next one waits for the interval and less than another one. Where no
/// route takes it, only the number is used up. Sessions and windows stay as they are.
pub proof fn law_message_goes_out(
    st: Step,
    elapsed_ms: u64,
    m: EndpointMessageState,
    sample: bool,
) -> (sent: (EnvelopeStamp, Seq<EdgeId>, Seq<u16>))
    requires
        model::endpoint_ok(st.core),
        cipher_opens(),
        has_keys(st.core.params),
        wire::endpoint_fits(m),
        planned_size(st.core, m) <= st.core.params.mtu,
    ensures
        ({
            let s = st.core;
            let t = model::message_sent(st, elapsed_ms, m, sample);
            let (stamp, route, plan) = sent;
            let planned = routing::planned(
                s.planner,
                elapsed_ms,
                planned_size(s, m) as usize,
                sample,
            );
            let id = (stamp.seq_id, stamp.seq_no);
            &&& stamps_next(s, elapsed_ms, stamp)
            &&& t.core.params == s.params
            &&& t.core.sessions == s.sessions
            &&& t.core.tombstones == s.tombstones
            &&& t.core.filter == s.filter
            &&& t.core.next_conv_id == s.next_conv_id
            &&& t.core.seq_id == stamp.seq_id
            &&& t.core.next_seq_no == stamp.seq_no + 1
            &&& t.core.planner == planned.0
            &&& planned.1 is Some ==> {
                &&& planning::is_route(s.planner, elapsed_ms, route, s.planner.len() - 1)
                &&& planning::follows(s.planner, plan, route)
                &&& t.actions.len() == st.actions.len() + 1
                &&& t.actions.drop_last() == st.actions
                &&& sends(s.params, t.actions.last(), plan, stamp, m)
                &&& t.core.outstanding == if sample {
                    s.outstanding.insert(
                        id,
                        SampleState {
                            route_plan: plan,
                            sent_at: elapsed_ms,
                            deadline: after(
                                elapsed_ms,
                                s.params.feedback_timeout_ms as int,
                            ) as u64,
                        },
                    )
                } else {
                    s.outstanding
                }
                &&& if sample {
                    after(elapsed_ms, s.params.feedback_interval_ms as int)
                        <= t.core.next_feedback_at <= after(
                        elapsed_ms,
                        2 * s.params.feedback_interval_ms - 1,
                    )
                } else {
                    t.core.next_feedback_at == s.next_feedback_at
                }
                &&& s.params.keepalive_interval_ms != 0 ==> t.core.next_keepalive_at == after(
                    elapsed_ms,
                    s.params.keepalive_interval_ms as int,
                )
                &&& s.params.keepalive_interval_ms == 0 ==> t.core.next_keepalive_at
                    == s.next_keepalive_at
                &&& t.core.metrics == (CoreMetrics {
                    packets_sent: after(s.metrics.packets_sent, 1) as u64,
                    ..s.metrics
                })
            }
            &&& planned.1 is None ==> {
                &&& t.actions == st.actions
                &&& t.core.outstanding == s.outstanding
                &&& t.core.next_feedback_at == s.next_feedback_at
                &&& t.core.next_keepalive_at == s.next_keepalive_at
                &&& t.core.metrics == s.metrics
                &&& t.core.planner == s.planner
            }
        }),
{
    reveal(model::message_sent);
    reveal(model::envelope_sent);
    let s = st.core;
    let p = s.params;
    let stamp = model::next_stamp(s, elapsed_ms);
    let payload = model::sealed_message(p.message_key, stamp, m);
    lemma_message_opens(p, stamp, m);
    let scheduled = planned_size(s, m) as usize;
    assert(payload.len() + p.scheduled_packet_overhead == scheduled);
    let (g, planned) = routing::planned(s.planner, elapsed_ms, scheduled, sample);
    let t = model::message_sent(st, elapsed_ms, m, sample);
    let counted = model::numbered(s);
    if planned is Some {
        let plan = planned->0;
        let route = planning::law_plan_takes_every_edge(
            s.planner,
            elapsed_ms,
            scheduled,
            sample,
        );
        routing::law_plan_is_walkable(s.planner, elapsed_ms, scheduled, sample);
        laws::lemma_walk_len(s.planner, 0, plan);
        assert(plan =~= Seq::new(
            route.len(),
            |i: int| routing::edge_of(s.planner, route[i]).channel_id,
        ));
        planning::lemma_plan_follows(s.planner, elapsed_ms, plan, route);
        let room = p.mtu - model::unpadded_len(plan.len(), payload.len());
        let padding = packet::random_padding(counted.random, room);
        lemma_padding(counted.random, room);
        let e = wire::EnvelopeState {
            time: stamp.time,
            seq_id: stamp.seq_id,
            seq_no: stamp.seq_no,
            route_plan: plan.drop_first(),
            payload,
            padding_len: padding,
        };
        let padded = random::skip_bytes(counted.random, 8);
        lemma_packet_opens(p.envelope_key, padded, e);
        let bytes = packet::encode_packet(p.envelope_key, padded, e);
        assert(t.actions == st.actions.push(
            ActionState::SendTransportPacket { channel_id: plan[0], bytes },
        ));
        assert(t.actions.drop_last() =~= st.actions);
        let sealed = random::skip_bytes(padded, 16);
        let interval = p.feedback_interval_ms as int;
        lemma_jitter(random::next_u64(sealed) as int, interval);
        (stamp, route, plan)
    } else {
        (stamp, Seq::empty(), Seq::empty())
    }
}

pub proof fn lemma_padding(r: random::RandomState, room: int)
    requires
        room >= 1,
    ensures
        1 <= packet::random_padding(r, room) <= room,
{
    let available = if room <= 255 {
        room
    } else {
        255
    };
    vstd::arithmetic::div_mod::lemma_mod_bound(random::next_u64(r) as int, available);
}

proof fn lemma_jitter(value: int, interval: int)
    requires
        interval > 0,
    ensures
        0 <= value % interval < interval,
{
    vstd::arithmetic::div_mod::lemma_mod_bound(value, interval);
}

// ---------------------------------------------------------------------------
// Keepalives
// ---------------------------------------------------------------------------

/// Where keepalives are on and nothing has been sent for the interval, a keepalive goes out
/// as soon as a route takes it, and the next one is due after the interval. It is a sample
/// where one is due. Otherwise nothing is sent.
pub proof fn law_keepalive_goes_out(st: Step, elapsed_ms: u64) -> (sent: (
    EnvelopeStamp,
    Seq<u16>,
))
    requires
        model::endpoint_ok(st.core),
        cipher_opens(),
        has_keys(st.core.params),
    ensures
        ({
            let s = st.core;
            let t = model::kept_alive(st, elapsed_ms);
            let (stamp, plan) = sent;
            let sample = elapsed_ms >= s.next_feedback_at;
            let m = EndpointMessageState::KeepAlive {
                reply_depth: if sample {
                    1
                } else {
                    0
                },
            };
            let due = s.params.keepalive_interval_ms != 0 && elapsed_ms >= s.next_keepalive_at;
            let planned = routing::planned(
                s.planner,
                elapsed_ms,
                planned_size(s, m) as usize,
                sample,
            ).1;
            &&& due ==> t.core.next_keepalive_at == after(
                elapsed_ms,
                s.params.keepalive_interval_ms as int,
            )
            &&& due && planned is Some ==> {
                &&& t.actions.len() == st.actions.len() + 1
                &&& t.actions.drop_last() == st.actions
                &&& sends(s.params, t.actions.last(), plan, stamp, m)
                &&& stamps_next(s, elapsed_ms, stamp)
                &&& sample ==> t.core.outstanding.contains_key((stamp.seq_id, stamp.seq_no))
            }
            &&& due && planned is None ==> t.actions == st.actions
            &&& !due ==> t == st
        }),
{
    reveal(model::kept_alive);
    let s = st.core;
    let sample = elapsed_ms >= s.next_feedback_at;
    let m = EndpointMessageState::KeepAlive {
        reply_depth: if sample {
            1
        } else {
            0
        },
    };
    assert(wire::encode_endpoint(m).len() == 1);
    let sent = law_message_goes_out(st, elapsed_ms, m, sample);
    assert(m == EndpointMessageState::KeepAlive { reply_depth: model::depth_of_sample(sample) });
    (sent.0, sent.2)
}

/// Polling an endpoint without sessions and samples, where keepalives are on, nothing has
/// been sent for the interval and a route takes packets, sends one packet, which opens to a
/// keepalive under the keys of the endpoint.
pub proof fn law_idle_poll_sends_a_keepalive(st: Step, elapsed_ms: u64) -> (sent: (
    EnvelopeStamp,
    Seq<u16>,
))
    requires
        model::endpoint_ok(st.core),
        cipher_opens(),
        has_keys(st.core.params),
        st.core.sessions == Map::<u64, SessionState>::empty(),
        st.core.outstanding == Map::<(u64, u64), SampleState>::empty(),
        st.core.params.keepalive_interval_ms != 0,
        elapsed_ms >= st.core.next_keepalive_at,
        forall|bytes: usize, sample: bool| #[trigger]
            routing::planned(st.core.planner, elapsed_ms, bytes, sample).1 is Some,
    ensures
        ({
            let t = model::polled(st, elapsed_ms);
            let (stamp, plan) = sent;
            &&& t.actions.len() == st.actions.len() + 1
            &&& t.actions.drop_last() == st.actions
            &&& sends(
                st.core.params,
                t.actions.last(),
                plan,
                stamp,
                EndpointMessageState::KeepAlive {
                    reply_depth: if elapsed_ms >= st.core.next_feedback_at {
                        1
                    } else {
                        0
                    },
                },
            )
            &&& t.core.next_keepalive_at == after(
                elapsed_ms,
                st.core.params.keepalive_interval_ms as int,
            )
        }),
{
    reveal(model::samples_expired);
    reveal(model::senders_expired);
    reveal(model::sessions_polled);
    let s = st.core;
    let pairs = ordered::ascending_pairs(s.outstanding.dom());
    assert(s.outstanding.dom() =~= Set::<(u64, u64)>::empty());
    lemma_no_pairs(s.outstanding.dom());
    assert(pairs.len() == 0);
    let fed = model::samples_expired(s, elapsed_ms, pairs);
    assert(fed == s);
    let now = crate::machine::tick_at(s.params.boot_time_ms, elapsed_ms);
    let ids = sequence::expiring(s.filter, now, model::SEQUENCE_SOFT_CAP as nat);
    let cut = model::with_core(
        st,
        EndpointState { filter: sequence::without(s.filter, ids), ..s },
    );
    lemma_no_sessions_reset(cut, elapsed_ms, ids);
    let reset = model::senders_expired(model::with_core(st, fed), elapsed_ms);
    assert(reset == cut);
    let forgotten = model::with_core(
        reset,
        EndpointState {
            tombstones: model::tombstones_kept(reset.core.tombstones, elapsed_ms),
            ..reset.core
        },
    );
    assert(forgotten.core.sessions.dom() =~= Set::<u64>::empty());
    lemma_no_keys(forgotten.core.sessions.dom());
    let sent = law_keepalive_goes_out(forgotten, elapsed_ms);
    sent
}

proof fn lemma_no_pairs(set: Set<(u64, u64)>)
    requires
        set == Set::<(u64, u64)>::empty(),
    ensures
        ordered::ascending_pairs(set).len() == 0,
{
    ordered::lemma_ascending_pairs_exists(set);
    let keys = ordered::ascending_pairs(set);
    if keys.len() > 0 {
        assert(keys.contains(keys[0]));
        assert(set.contains(keys[0]));
    }
}

proof fn lemma_no_keys(set: Set<u64>)
    requires
        set == Set::<u64>::empty(),
    ensures
        ordered::ascending(set).len() == 0,
{
    ordered::lemma_ascending_exists(set);
    let keys = ordered::ascending(set);
    if keys.len() > 0 {
        assert(keys.contains(keys[0]));
        assert(set.contains(keys[0]));
    }
}

proof fn lemma_no_sessions_reset(st: Step, elapsed_ms: u64, ids: Seq<u64>)
    requires
        st.core.sessions == Map::<u64, SessionState>::empty(),
    ensures
        model::senders_reset(st, elapsed_ms, ids) == st,
    decreases ids.len(),
{
    reveal(model::senders_reset);
    reveal(model::sessions_reset);
    if ids.len() > 0 {
        assert(st.core.sessions.dom() =~= Set::<u64>::empty());
        lemma_no_keys(st.core.sessions.dom());
        lemma_no_sessions_reset(st, elapsed_ms, ids.drop_first());
    }
}

// ---------------------------------------------------------------------------
// Answers
// ---------------------------------------------------------------------------

/// A message that asks for an answer gets one, where a route takes it: a reply that names the
/// number of the packet. The reply is a sample in turn where one is due and the chain is
/// shorter than three, and then lies one deeper. A message that does not ask gets none.
pub proof fn law_reply_names_the_packet(
    st: Step,
    elapsed_ms: u64,
    stamp: EnvelopeStamp,
    reply_depth: u8,
) -> (sent: (EnvelopeStamp, Seq<u16>))
    requires
        model::endpoint_ok(st.core),
        cipher_opens(),
        has_keys(st.core.params),
        stamp.seq_id < 0x1_0000_0000_0000,
        stamp.seq_no < 0x1_0000_0000_0000,
        reply_depth <= 3,
    ensures
        ({
            let s = st.core;
            let t = model::replied(st, elapsed_ms, stamp, reply_depth);
            let (own, plan) = sent;
            let sample = reply_depth < 3 && elapsed_ms >= s.next_feedback_at;
            let m = EndpointMessageState::RouteReply {
                reply_depth: if sample {
                    (reply_depth + 1) as u8
                } else {
                    0
                },
                received_seq_id: stamp.seq_id,
                received_seq_no: stamp.seq_no,
            };
            let planned = routing::planned(
                s.planner,
                elapsed_ms,
                planned_size(s, m) as usize,
                sample,
            ).1;
            &&& reply_depth == 0 ==> t == st
            &&& reply_depth > 0 && planned is Some ==> {
                &&& t.actions.len() == st.actions.len() + 1
                &&& t.actions.drop_last() == st.actions
                &&& sends(s.params, t.actions.last(), plan, own, m)
                &&& stamps_next(s, elapsed_ms, own)
                &&& sample ==> t.core.outstanding.contains_key((own.seq_id, own.seq_no))
                &&& !sample ==> t.core.outstanding == s.outstanding
            }
            &&& reply_depth > 0 && planned is None ==> t.actions == st.actions
        }),
{
    reveal(model::replied);
    let s = st.core;
    let sample = reply_depth < 3 && elapsed_ms >= s.next_feedback_at;
    let m = EndpointMessageState::RouteReply {
        reply_depth: if sample {
            (reply_depth + 1) as u8
        } else {
            0
        },
        received_seq_id: stamp.seq_id,
        received_seq_no: stamp.seq_no,
    };
    assert(m == model::reply_to(s, elapsed_ms, stamp, reply_depth));
    crate::octets::lemma_le_bytes_len(stamp.seq_id as nat, 6);
    crate::octets::lemma_le_bytes_len(stamp.seq_no as nat, 6);
    assert(wire::encode_endpoint(m).len() == 13);
    let sent = law_message_goes_out(st, elapsed_ms, m, sample);
    (sent.0, sent.2)
}

/// A keepalive that asks for an answer is answered with a reply that names it, where a route
/// takes the reply, and changes no session.
pub proof fn law_keepalive_is_answered(
    st: Step,
    elapsed_ms: u64,
    channel_id: u16,
    bytes: Seq<u8>,
    depth: u8,
) -> (sent: (EnvelopeStamp, Seq<u16>))
    requires
        model::endpoint_ok(st.core),
        cipher_opens(),
        has_keys(st.core.params),
        authentic(st.core, bytes),
        model::admitted(st.core, elapsed_ms, stamp_in(st.core, bytes)).1,
        message_in(st.core, bytes) == (EndpointMessageState::KeepAlive { reply_depth: depth }),
        0 < depth <= 3,
        forall|bytes: usize, sample: bool| #[trigger]
            routing::planned(st.core.planner, elapsed_ms, bytes, sample).1 is Some,
    ensures
        ({
            let t = model::event_handled(
                st,
                elapsed_ms,
                EventState::TransportPacketReceived { channel_id, bytes },
            ).0;
            let (own, plan) = sent;
            let got = stamp_in(st.core, bytes);
            let sample = depth < 3 && elapsed_ms >= st.core.next_feedback_at;
            &&& t.actions.len() == st.actions.len() + 1
            &&& t.actions.drop_last() == st.actions
            &&& sends(
                st.core.params,
                t.actions.last(),
                plan,
                own,
                EndpointMessageState::RouteReply {
                    reply_depth: if sample {
                        (depth + 1) as u8
                    } else {
                        0
                    },
                    received_seq_id: got.seq_id,
                    received_seq_no: got.seq_no,
                },
            )
            &&& t.core.sessions == st.core.sessions
            &&& t.core.tombstones == st.core.tombstones
        }),
{
    reveal(model::packet_received);
    reveal(model::message_handled);
    let s = st.core;
    let stamp = stamp_in(s, bytes);
    let counted = EndpointState {
        metrics: CoreMetrics {
            packets_received: crate::machine::bumped(s.metrics.packets_received),
            ..s.metrics
        },
        ..s
    };
    packet::lemma_opened_fits(s.params.envelope_key, bytes);
    let checked = model::admitted(counted, elapsed_ms, stamp);
    assert(checked.1);
    let mid = model::with_core(st, checked.0);
    assert(mid.core.planner == s.planner);
    let sent = law_reply_names_the_packet(mid, elapsed_ms, stamp, depth);
    lemma_reply_frame(mid, elapsed_ms, stamp, depth);
    sent
}

proof fn lemma_reply_frame(st: Step, elapsed_ms: u64, stamp: EnvelopeStamp, depth: u8)
    ensures
        ({
            let t = model::replied(st, elapsed_ms, stamp, depth);
            &&& t.core.sessions == st.core.sessions
            &&& t.core.tombstones == st.core.tombstones
        }),
{
    reveal(model::replied);
    reveal(model::message_sent);
    reveal(model::envelope_sent);
}

/// What sending a message makes of the planner and of the samples.
proof fn lemma_sent_planner(
    st: Step,
    elapsed_ms: u64,
    m: EndpointMessageState,
    sample: bool,
) -> (bytes: usize)
    ensures
        ({
            let s = st.core;
            let t = model::message_sent(st, elapsed_ms, m, sample).core;
            let id = (model::numbered(s).seq_id, (model::numbered(s).next_seq_no - 1) as u64);
            &&& t.planner == routing::planned(s.planner, elapsed_ms, bytes, sample).0
            &&& t.outstanding == s.outstanding || (t.outstanding.contains_key(id)
                && t.outstanding == s.outstanding.insert(id, t.outstanding[id]))
            &&& !sample ==> t.outstanding == s.outstanding
        }),
{
    reveal(model::message_sent);
    reveal(model::envelope_sent);
    let s = st.core;
    let stamp = model::next_stamp(s, elapsed_ms);
    let payload = model::sealed_message(s.params.message_key, stamp, m);
    (payload.len() + s.params.scheduled_packet_overhead) as usize
}

/// What is left of an edge after an answer or the want of one, whatever is planned next.
pub open spec fn rescored(
    edge: routing::Edge,
    at: u64,
    success: bool,
    first: bool,
    next: routing::Edge,
) -> bool {
    if planning::is_news(edge, at) {
        &&& next.last_observation_at == Some(at)
        &&& success ==> 4 * next.loss <= 3 * edge.loss < 4 * next.loss + 4
        &&& !success ==> 16 * (next.loss - edge.loss) <= 65535 - edge.loss < 16 * (next.loss
            - edge.loss) + 16
        &&& success && first ==> next.cooldown_until == 0 && next.retry_delay_ms == 50
        &&& !(success && first) ==> next.cooldown_until == edge.cooldown_until
            && next.retry_delay_ms == edge.retry_delay_ms
    } else {
        same_score(edge, next)
    }
}

/// The scores and cooldowns are the same.
pub open spec fn same_score(edge: routing::Edge, next: routing::Edge) -> bool {
    &&& next.loss == edge.loss
    &&& next.last_observation_at == edge.last_observation_at
    &&& next.cooldown_until == edge.cooldown_until
    &&& next.retry_delay_ms == edge.retry_delay_ms
}

/// A reply to a sample that is under way ends the sample. No edge of its route has a greater
/// loss than before; where the reply is news of an edge, a quarter of the loss is gone, and
/// the first edge is out of its cooldown. The other edges keep their scores and cooldowns,
/// and so do those that know something newer.
pub proof fn law_answered_sample_is_rewarded(
    st: Step,
    elapsed_ms: u64,
    channel_id: u16,
    bytes: Seq<u8>,
    depth: u8,
    id: (u64, u64),
    route: Seq<EdgeId>,
)
    requires
        model::endpoint_ok(st.core),
        authentic(st.core, bytes),
        model::admitted(st.core, elapsed_ms, stamp_in(st.core, bytes)).1,
        message_in(st.core, bytes) == (EndpointMessageState::RouteReply {
            reply_depth: depth,
            received_seq_id: id.0,
            received_seq_no: id.1,
        }),
        st.core.outstanding.contains_key(id),
        planning::follows(st.core.planner, st.core.outstanding[id].route_plan, route),
    ensures
        ({
            let s = st.core;
            let t = model::event_handled(
                st,
                elapsed_ms,
                EventState::TransportPacketReceived { channel_id, bytes },
            ).0.core;
            let at = s.outstanding[id].sent_at;
            &&& depth == 0 ==> t.outstanding == s.outstanding.remove(id)
            &&& t.outstanding.contains_key(id) ==> t.outstanding[id].sent_at == elapsed_ms && depth
                > 0
            &&& forall|i: int|
                0 <= i < route.len() ==> {
                    let edge = routing::edge_of(s.planner, #[trigger] route[i]);
                    let next = routing::edge_of(t.planner, route[i]);
                    &&& rescored(edge, at, true, i == 0, next)
                    &&& next.loss <= edge.loss
                    &&& planning::is_news(edge, at) && edge.loss > 0 ==> next.loss < edge.loss
                }
            &&& forall|other: EdgeId|
                routing::is_edge(s.planner, other) && !route.contains(other) ==> same_score(
                    routing::edge_of(s.planner, other),
                    #[trigger] routing::edge_of(t.planner, other),
                )
        }),
{
    reveal(model::packet_received);
    reveal(model::message_handled);
    reveal(model::replied);
    let s = st.core;
    let stamp = stamp_in(s, bytes);
    let counted = EndpointState {
        metrics: CoreMetrics {
            packets_received: crate::machine::bumped(s.metrics.packets_received),
            ..s.metrics
        },
        ..s
    };
    let checked = model::admitted(counted, elapsed_ms, stamp);
    assert(checked.1);
    let sample = s.outstanding[id];
    let g = routing::feedback(s.planner, sample.route_plan, sample.sent_at, true);
    planning::law_feedback_scores_the_plan(
        s.planner,
        sample.route_plan,
        route,
        sample.sent_at,
        true,
    );
    let mid = model::with_core(
        st,
        EndpointState { outstanding: s.outstanding.remove(id), planner: g, ..checked.0 },
    );
    let t = model::event_handled(
        st,
        elapsed_ms,
        EventState::TransportPacketReceived { channel_id, bytes },
    ).0.core;
    let m = model::reply_to(mid.core, elapsed_ms, stamp, depth);
    let asks = wire::reply_depth_of(m) > 0;
    if depth > 0 {
        let size = lemma_sent_planner(mid, elapsed_ms, m, asks);
        lemma_sent_sample(mid, elapsed_ms, m, asks, id);
        assert(t.planner == routing::planned(g, elapsed_ms, size, asks).0);
        assert forall|i: int| 0 <= i < route.len() implies {
            let edge = routing::edge_of(s.planner, #[trigger] route[i]);
            let next = routing::edge_of(t.planner, route[i]);
            &&& rescored(edge, sample.sent_at, true, i == 0, next)
            &&& next.loss <= edge.loss
            &&& planning::is_news(edge, sample.sent_at) && edge.loss > 0 ==> next.loss < edge.loss
        } by {
            assert(routing::is_edge(g, route[i]));
            planning::law_plan_keeps_the_scores(g, elapsed_ms, size, asks, route[i]);
            assert(planning::scored(
                routing::edge_of(s.planner, route[i]),
                sample.sent_at,
                true,
                routing::edge_of(g, route[i]),
            ));
        }
        assert forall|other: EdgeId|
            routing::is_edge(s.planner, other) && !route.contains(other) implies same_score(
            routing::edge_of(s.planner, other),
            #[trigger] routing::edge_of(t.planner, other),
        ) by {
            assert(routing::is_edge(g, other));
            planning::law_plan_keeps_the_scores(g, elapsed_ms, size, asks, other);
            assert(routing::edge_of(g, other) == routing::edge_of(s.planner, other));
        }
    } else {
        assert(t.planner == g);
        assert forall|i: int| 0 <= i < route.len() implies {
            let edge = routing::edge_of(s.planner, #[trigger] route[i]);
            let next = routing::edge_of(t.planner, route[i]);
            &&& rescored(edge, sample.sent_at, true, i == 0, next)
            &&& next.loss <= edge.loss
            &&& planning::is_news(edge, sample.sent_at) && edge.loss > 0 ==> next.loss < edge.loss
        } by {
            assert(planning::scored(
                routing::edge_of(s.planner, route[i]),
                sample.sent_at,
                true,
                routing::edge_of(g, route[i]),
            ));
        }
    }
}

proof fn lemma_sent_sample(
    st: Step,
    elapsed_ms: u64,
    m: EndpointMessageState,
    sample: bool,
    id: (u64, u64),
)
    ensures
        ({
            let t = model::message_sent(st, elapsed_ms, m, sample).core;
            t.outstanding.contains_key(id) ==> st.core.outstanding.contains_key(id)
                || t.outstanding[id].sent_at == elapsed_ms
        }),
{
    reveal(model::message_sent);
    reveal(model::envelope_sent);
}

/// A sample whose deadline has passed is given up when the endpoint is polled, and each edge
/// of its route that the want of an answer is news of has a greater loss than before, unless
/// the loss is as great as it can get. No edge gets better by it.
pub proof fn law_overdue_sample_is_charged(
    s: EndpointState,
    elapsed_ms: u64,
    ids: Seq<(u64, u64)>,
    route: Seq<EdgeId>,
    at: EdgeId,
)
    requires
        routing::plan_graph_wf(s.planner),
        model::samples_ok(s.planner, s.outstanding),
        forall|i: int| 0 <= i < ids.len() ==> s.outstanding.contains_key(#[trigger] ids[i]),
        forall|i: int, j: int|
            0 <= i < j < ids.len() ==> #[trigger] ids[i] != #[trigger] ids[j],
        routing::is_edge(s.planner, at),
    ensures
        ({
            let t = model::samples_expired(s, elapsed_ms, ids);
            let edge = routing::edge_of(s.planner, at);
            let next = routing::edge_of(t.planner, at);
            &&& edge.loss <= next.loss
            &&& next.cooldown_until == edge.cooldown_until
            &&& next.virtual_free_at == edge.virtual_free_at
            &&& ids.len() > 0 && elapsed_ms >= s.outstanding[ids[0]].deadline
                && planning::follows(s.planner, s.outstanding[ids[0]].route_plan, route)
                && route.contains(at) && planning::is_news(
                edge,
                s.outstanding[ids[0]].sent_at,
            ) && edge.loss <= 65535 - 16 ==> edge.loss < next.loss
            &&& forall|i: int|
                0 <= i < ids.len() ==> t.outstanding.contains_key(#[trigger] ids[i]) == (elapsed_ms
                    < s.outstanding[ids[i]].deadline)
            &&& forall|id: (u64, u64)|
                !ids.contains(id) ==> t.outstanding.contains_key(id)
                    == #[trigger] s.outstanding.contains_key(id)
            &&& routing::is_edge(t.planner, at)
        }),
    decreases ids.len(),
{
    reveal(model::samples_expired);
    if ids.len() > 0 {
        let id = ids[0];
        assert(s.outstanding.contains_key(id));
        let sample = s.outstanding[id];
        let rest = ids.drop_first();
        let next = if elapsed_ms < sample.deadline {
            s
        } else {
            EndpointState {
                outstanding: s.outstanding.remove(id),
                planner: routing::feedback(
                    s.planner,
                    sample.route_plan,
                    sample.sent_at,
                    false,
                ),
                ..s
            }
        };
        let way = lemma_plan_has_route(s.planner, sample.route_plan);
        planning::law_feedback_scores_the_plan(
            s.planner,
            sample.route_plan,
            way,
            sample.sent_at,
            false,
        );
        if way.contains(at) {
            let i = choose|i: int| 0 <= i < way.len() && way[i] == at;
            assert(planning::scored(
                routing::edge_of(s.planner, way[i]),
                sample.sent_at,
                false,
                routing::edge_of(
                    routing::feedback(s.planner, sample.route_plan, sample.sent_at, false),
                    way[i],
                ),
            ));
            assert(routing::edge_of(s.planner, at) == s.planner[at.node as int][at.edge as int]);
        }
        if planning::follows(s.planner, sample.route_plan, route) {
            planning::lemma_same_way(s.planner, sample.route_plan, route, way);
        }
        assert(routing::is_edge(next.planner, at));
        assert(model::samples_ok(next.planner, next.outstanding)) by {
            assert forall|other: (u64, u64)| #[trigger]
                next.outstanding.contains_key(other) implies routing::walkable(
                next.planner,
                0,
                next.outstanding[other].route_plan,
            ) by {
                assert(s.outstanding.contains_key(other));
                routing::lemma_same_topology_refl(s.planner);
                routing::lemma_walkable_topology(
                    s.planner,
                    next.planner,
                    0,
                    next.outstanding[other].route_plan,
                );
            }
        }
        assert forall|i: int| 0 <= i < rest.len() implies next.outstanding.contains_key(
            #[trigger] rest[i],
        ) by {
            assert(rest[i] == ids[i + 1]);
            assert(ids[0] != ids[i + 1]);
        }
        assert forall|i: int, j: int| 0 <= i < j < rest.len() implies #[trigger] rest[i]
            != #[trigger] rest[j] by {
            assert(ids[i + 1] != ids[j + 1]);
        }
        law_overdue_sample_is_charged(next, elapsed_ms, rest, route, at);
        let t = model::samples_expired(s, elapsed_ms, ids);
        assert(!rest.contains(id)) by {
            assert forall|i: int| 0 <= i < rest.len() implies rest[i] != id by {
                assert(ids[0] != ids[i + 1]);
            }
        }
        assert forall|i: int| 0 <= i < ids.len() implies t.outstanding.contains_key(
            #[trigger] ids[i],
        ) == (elapsed_ms < s.outstanding[ids[i]].deadline) by {
            if i > 0 {
                assert(rest[i - 1] == ids[i]);
                assert(ids[0] != ids[i]);
            } else {
                assert(t.outstanding.contains_key(id) == next.outstanding.contains_key(id));
            }
        }
        assert forall|other: (u64, u64)| !ids.contains(other) implies t.outstanding.contains_key(
            other,
        ) == #[trigger] s.outstanding.contains_key(other) by {
            assert(other != id) by {
                assert(ids[0] == id);
            }
            assert(!rest.contains(other)) by {
                assert forall|i: int| 0 <= i < rest.len() implies rest[i] != other by {
                    assert(ids[i + 1] == rest[i]);
                }
            }
            assert(next.outstanding.contains_key(other) == s.outstanding.contains_key(other));
        }
    }
}

/// A plan that can be followed names a row of edges.
proof fn lemma_plan_has_route(g: routing::PlanGraph, plan: Seq<u16>) -> (route: Seq<EdgeId>)
    requires
        routing::plan_graph_wf(g),
        routing::walkable(g, 0, plan),
    ensures
        planning::follows(g, plan, route),
{
    planning::lemma_walk_route(g, 0, plan)
}

// ---------------------------------------------------------------------------
// Sessions
// ---------------------------------------------------------------------------

/// Each packet of a session goes out in a message of its own, behind those before it, where a
/// route takes it. It asks for an answer where a sample is due.
pub proof fn law_session_packets_go_out(
    st: Step,
    elapsed_ms: u64,
    packets: Seq<Seq<u8>>,
    last: Seq<u8>,
) -> (sent: (EnvelopeStamp, Seq<u16>))
    requires
        model::endpoint_ok(model::packets_sent(st, elapsed_ms, packets).core),
        cipher_opens(),
        has_keys(st.core.params),
        last.len() <= st.core.params.kcp.mtu,
    ensures
        ({
            let before = model::packets_sent(st, elapsed_ms, packets);
            let t = model::packets_sent(st, elapsed_ms, packets.push(last));
            let (stamp, plan) = sent;
            let s = before.core;
            let sample = elapsed_ms >= s.next_feedback_at;
            let m = EndpointMessageState::KcpPacket {
                reply_depth: if sample {
                    1
                } else {
                    0
                },
                packet: last,
            };
            let planned = routing::planned(
                s.planner,
                elapsed_ms,
                planned_size(s, m) as usize,
                sample,
            ).1;
            &&& planned is Some ==> {
                &&& t.actions.len() == before.actions.len() + 1
                &&& t.actions.drop_last() == before.actions
                &&& sends(st.core.params, t.actions.last(), plan, stamp, m)
                &&& stamps_next(s, elapsed_ms, stamp)
                &&& sample ==> t.core.outstanding.contains_key((stamp.seq_id, stamp.seq_no))
            }
            &&& planned is None ==> t.actions == before.actions
            &&& t.core.sessions == s.sessions
        }),
{
    let before = model::packets_sent(st, elapsed_ms, packets);
    let sample = elapsed_ms >= before.core.next_feedback_at;
    let m = EndpointMessageState::KcpPacket {
        reply_depth: if sample {
            1
        } else {
            0
        },
        packet: last,
    };
    lemma_packets_push(st, elapsed_ms, packets, last);
    lemma_packets_keep(st, elapsed_ms, packets);
    assert(m == EndpointMessageState::KcpPacket {
        reply_depth: model::depth_of_sample(sample),
        packet: last,
    });
    assert(wire::encode_endpoint(m).len() == 1 + last.len());
    let sent = law_message_goes_out(before, elapsed_ms, m, sample);
    (sent.0, sent.2)
}

proof fn lemma_packets_push(st: Step, elapsed_ms: u64, packets: Seq<Seq<u8>>, last: Seq<u8>)
    ensures
        ({
            let before = model::packets_sent(st, elapsed_ms, packets);
            let sample = model::feedback_due(before.core, elapsed_ms);
            model::packets_sent(st, elapsed_ms, packets.push(last)) == model::message_sent(
                before,
                elapsed_ms,
                EndpointMessageState::KcpPacket {
                    reply_depth: model::depth_of_sample(sample),
                    packet: last,
                },
                sample,
            )
        }),
    decreases packets.len(),
{
    reveal_with_fuel(model::packets_sent, 3);
    let all = packets.push(last);
    if packets.len() > 0 {
        let sample = model::feedback_due(st.core, elapsed_ms);
        let next = model::message_sent(
            st,
            elapsed_ms,
            EndpointMessageState::KcpPacket {
                reply_depth: model::depth_of_sample(sample),
                packet: packets[0],
            },
            sample,
        );
        assert(all[0] == packets[0]);
        assert(all.drop_first() =~= packets.drop_first().push(last));
        lemma_packets_push(next, elapsed_ms, packets.drop_first(), last);
    } else {
        assert(all.drop_first() =~= Seq::empty());
    }
}

pub proof fn lemma_packets_keep(st: Step, elapsed_ms: u64, packets: Seq<Seq<u8>>)
    ensures
        ({
            let t = model::packets_sent(st, elapsed_ms, packets);
            &&& t.core.sessions == st.core.sessions
            &&& t.core.tombstones == st.core.tombstones
            &&& t.core.next_conv_id == st.core.next_conv_id
            &&& t.core.params == st.core.params
        }),
    decreases packets.len(),
{
    reveal(model::packets_sent);
    reveal(model::message_sent);
    reveal(model::envelope_sent);
    if packets.len() > 0 {
        let sample = model::feedback_due(st.core, elapsed_ms);
        let next = model::message_sent(
            st,
            elapsed_ms,
            EndpointMessageState::KcpPacket {
                reply_depth: model::depth_of_sample(sample),
                packet: packets[0],
            },
            sample,
        );
        lemma_packets_keep(next, elapsed_ms, packets.drop_first());
    }
}

/// The messages that a session sends, as its conversation carries them.
pub open spec fn messages_of(sent: spec_fn(int) -> wire::SessionMessageState) -> spec_fn(
    int,
) -> Seq<u8> {
    |i: int| wire::encode_session(sent(i))
}

/// Opening a session creates it under the next id, open, and its first message opens it at
/// the peer.
pub proof fn law_open_announces_the_session(
    st: Step,
    elapsed_ms: u64,
    stream: spec_fn(int) -> (u8, Seq<u8>),
    sent: spec_fn(int) -> wire::SessionMessageState,
)
    requires
        model::endpoint_ok(st.core),
        delivery::carries(stream, messages_of(sent), st.core.params.kcp.mtu - 28),
        sent(0) == wire::SessionMessageState::Open,
        st.core.params.kcp.mtu <= 28 + u32::MAX,
    ensures
        ({
            let (t, result) = model::event_handled(st, elapsed_ms, EventState::SessionOpen);
            let conv = st.core.next_conv_id;
            &&& result == (CoreEventResult::SessionCreated { conv_id: conv })
            &&& t.core.next_conv_id == (conv + 1) % 0x1_0000_0000_0000_0000
            &&& t.core.sessions.contains_key(conv)
            &&& t.core.sessions[conv].phase == SessionPhase::Open
            &&& t.core.sessions[conv].peer_seq is None
            &&& t.core.sessions[conv].close_deadline_at is None
            &&& delivery::sent_up_to(
                t.core.sessions[conv].kcp,
                stream,
                messages_of(sent),
                0,
                1,
            )
        }),
{
    let s = st.core;
    let conv = s.next_conv_id;
    let k = kcp::model::init(conv, s.params.kcp);
    kcp::laws::lemma_init_well_formed(conv, s.params.kcp);
    delivery::law_new_sender_has_sent_nothing(conv, s.params.kcp, stream, messages_of(sent));
    let messages = |i: int| wire::encode_session(sent(i));
    assert(messages =~= messages_of(sent));
    let first = wire::encode_session(wire::SessionMessageState::Open);
    assert(first.len() == 1);
    lemma_short_message(s.params.kcp, 1, k.mss as int);
    assert(kcp::model::send(k, first).1 is Ok);
    guarantees::law_session_sends_in_order(k, elapsed_ms, stream, sent, 0, 0, 0);
    let opened = model::with_core(
        st,
        model::put_session(
            EndpointState { next_conv_id: conv.wrapping_add(1), ..s },
            conv,
            session::new_session(conv, s.params.kcp, SessionPhase::Open),
        ),
    );
    lemma_session_sent_keeps(opened, elapsed_ms, conv, wire::SessionMessageState::Open);
}

/// A message of one or two bytes takes no more segments than the receive window has room for.
pub proof fn lemma_short_message(params: kcp::KcpParams, len: nat, mss: int)
    requires
        28 < params.mtu,
        mss == params.mtu - 28,
        1 <= len <= 2,
        session::message_segments(params, 2) < params.receive_window,
    ensures
        1 <= kcp::model::fragment_count(len, mss) < params.receive_window,
        kcp::model::fragment_count(len, mss) < 256,
{
    if mss == 1 {
        assert((1int - 1) / 1 == 0 && (2int - 1) / 1 == 1);
    } else {
        assert(0int / mss == 0) by (nonlinear_arith)
            requires
                mss > 1,
        ;
        assert(1int / mss == 0) by (nonlinear_arith)
            requires
                mss > 1,
        ;
    }
}

/// A message that a session in the open phase sends leaves it in place.
pub proof fn lemma_session_sent_keeps(
    st: Step,
    elapsed_ms: u64,
    conv: u64,
    m: wire::SessionMessageState,
)
    requires
        st.core.sessions.contains_key(conv),
    ensures
        ({
            let t = model::session_sent(st, elapsed_ms, conv, m);
            let old = st.core.sessions[conv];
            let new = SessionState {
                kcp: session::message_sent(old.kcp, elapsed_ms, m).0,
                ..old
            };
            &&& !model::finished(new, elapsed_ms) ==> t.core.sessions == st.core.sessions.insert(
                conv,
                new,
            ) && t.core.tombstones == st.core.tombstones
            &&& t.core.sessions.contains_key(conv) ==> t.core.sessions[conv] == new
            &&& t.core.next_conv_id == st.core.next_conv_id
            &&& t.core.params == st.core.params
        }),
{
    reveal(model::session_sent);
    reveal(model::closed_finished);
    let old = st.core.sessions[conv];
    let (k, packets) = session::message_sent(old.kcp, elapsed_ms, m);
    let kept = model::with_core(
        st,
        model::put_session(st.core, conv, SessionState { kcp: k, ..old }),
    );
    lemma_packets_keep(kept, elapsed_ms, packets);
}

/// A write that is taken is the next message of its session, byte for byte, and the session
/// stays open.
pub proof fn law_write_is_the_next_message(
    st: Step,
    elapsed_ms: u64,
    conv: u64,
    bytes: Seq<u8>,
    stream: spec_fn(int) -> (u8, Seq<u8>),
    sent: spec_fn(int) -> wire::SessionMessageState,
    una: int,
    n: int,
)
    requires
        model::endpoint_ok(st.core),
        model::event_acceptable(
            st.core,
            elapsed_ms,
            EventState::SessionWrite { conv_id: conv, bytes },
        ),
        !model::write_blocked(st.core, conv, bytes.len()),
        delivery::carries(stream, messages_of(sent), st.core.params.kcp.mtu - 28),
        delivery::sent_up_to(
            st.core.sessions[conv].kcp,
            stream,
            messages_of(sent),
            una,
            n,
        ),
        sent(n) == (wire::SessionMessageState::Data { bytes }),
    ensures
        ({
            let (t, result) = model::event_handled(
                st,
                elapsed_ms,
                EventState::SessionWrite { conv_id: conv, bytes },
            );
            &&& result == CoreEventResult::Handled
            &&& t.core.sessions.contains_key(conv)
            &&& t.core.sessions[conv].phase == SessionPhase::Open
            &&& delivery::sent_up_to(
                t.core.sessions[conv].kcp,
                stream,
                messages_of(sent),
                una,
                n + 1,
            )
        }),
{
    let s = st.core;
    let k = s.sessions[conv].kcp;
    let m = wire::SessionMessageState::Data { bytes };
    assert(session::session_ok(s.params.kcp, conv, s.sessions[conv]));
    let messages = |i: int| wire::encode_session(sent(i));
    assert(messages =~= messages_of(sent));
    assert(wire::encode_session(m).len() == 1 + bytes.len());
    assert(kcp::model::send(k, messages(n)).1 is Ok);
    guarantees::law_session_sends_in_order(k, elapsed_ms, stream, sent, una, n, una);
    lemma_session_sent_keeps(st, elapsed_ms, conv, m);
}

/// Closing a session leaves it no more than its deadline, and the close is its next message,
/// with the reason, as soon as its queue has room.
pub proof fn law_close_is_the_next_message(
    st: Step,
    elapsed_ms: u64,
    conv: u64,
    reason: CloseReason,
    stream: spec_fn(int) -> (u8, Seq<u8>),
    sent: spec_fn(int) -> wire::SessionMessageState,
    una: int,
    n: int,
)
    requires
        model::endpoint_ok(st.core),
        model::event_acceptable(
            st.core,
            elapsed_ms,
            EventState::SessionClose { conv_id: conv, reason },
        ),
        delivery::carries(stream, messages_of(sent), st.core.params.kcp.mtu - 28),
        delivery::sent_up_to(
            st.core.sessions[conv].kcp,
            stream,
            messages_of(sent),
            una,
            n,
        ),
        sent(n) == (wire::SessionMessageState::Close { reason }),
        elapsed_ms < after(elapsed_ms, st.core.params.close_deadline_ms as int),
        !st.core.sessions[conv].close_queued,
    ensures
        ({
            let (t, result) = model::event_handled(
                st,
                elapsed_ms,
                EventState::SessionClose { conv_id: conv, reason },
            );
            let old = st.core.sessions[conv].kcp;
            let room = old.snd_queue.len() + old.snd_buf.len() < st.core.params.kcp.send_window;
            &&& result == CoreEventResult::Handled
            &&& t.core.sessions.contains_key(conv)
            &&& t.core.sessions[conv].phase == SessionPhase::ClosingLocal
            &&& t.core.sessions[conv].pending_close == Some(reason)
            &&& t.core.sessions[conv].close_deadline_at == Some(
                after(elapsed_ms, st.core.params.close_deadline_ms as int) as u64,
            )
            &&& t.core.sessions[conv].close_queued == room
            &&& delivery::sent_up_to(
                t.core.sessions[conv].kcp,
                stream,
                messages_of(sent),
                una,
                if room {
                    n + 1
                } else {
                    n
                },
            )
        }),
{
    reveal(model::close_announced);
    let s = st.core;
    let old = s.sessions[conv];
    let closing = SessionState {
        phase: SessionPhase::ClosingLocal,
        close_deadline_at: Some(
            model::later(elapsed_ms, s.params.close_deadline_ms as int),
        ),
        pending_close: Some(reason),
        ..old
    };
    let mid = model::with_core(st, model::put_session(s, conv, closing));
    assert(session::session_ok(s.params.kcp, conv, old));
    let k = old.kcp;
    let m = wire::SessionMessageState::Close { reason };
    if kcp::laws::pending(k) < s.params.kcp.send_window {
        let queued = model::with_core(
            mid,
            model::put_session(mid.core, conv, SessionState { close_queued: true, ..closing }),
        );
        let messages = |i: int| wire::encode_session(sent(i));
        assert(messages =~= messages_of(sent));
        assert(wire::encode_session(m).len() == 2);
        lemma_short_message(s.params.kcp, 2, k.mss as int);
        assert(kcp::model::send(k, messages(n)).1 is Ok);
        guarantees::law_session_sends_in_order(k, elapsed_ms, stream, sent, una, n, una);
        lemma_message_pends(k, elapsed_ms, m);
        lemma_session_sent_keeps(queued, elapsed_ms, conv, m);
    }
}

/// A message that has just been taken is still to be acknowledged.
pub proof fn lemma_message_pends(k: kcp::model::KcpState, elapsed_ms: u64, m: wire::SessionMessageState)
    requires
        kcp::model::well_formed(k),
        kcp::model::send(k, wire::encode_session(m)).1 is Ok,
    ensures
        kcp::laws::pending(session::message_sent(k, elapsed_ms, m).0) > 0,
{
    reveal(session::message_sent);
    reveal(session::flushed_now);
    let data = wire::encode_session(m);
    kcp::laws::lemma_send_frame(k, data);
    kcp::laws::lemma_send_well_formed(k, data);
    let queued = kcp::model::send(k, data).0;
    let now = session::kcp_time(elapsed_ms);
    kcp::laws::lemma_update_frame(queued, now);
    kcp::laws::lemma_flushed_frame(kcp::model::update(queued, now));
}

/// A session that has nothing left to do is gone, and remembered for 661504 ms; the shell is
/// told the reason where it closed the session. One that the peer never opened is dropped
/// without a trace but a count.
pub proof fn law_finished_session_is_remembered(st: Step, elapsed_ms: u64, conv: u64)
    requires
        st.core.sessions.contains_key(conv),
        model::finished(st.core.sessions[conv], elapsed_ms),
    ensures
        ({
            let t = model::closed_finished(st, elapsed_ms, conv);
            let session = st.core.sessions[conv];
            &&& t.core.sessions == st.core.sessions.remove(conv)
            &&& session.phase != SessionPhase::PendingRemote ==> t.core.tombstones
                == st.core.tombstones.insert(conv, after(elapsed_ms, 661_504) as u64)
            &&& session.phase == SessionPhase::PendingRemote ==> {
                &&& t.core.tombstones == st.core.tombstones
                &&& t.core.metrics.packets_dropped == after(
                    st.core.metrics.packets_dropped,
                    1,
                )
            }
            &&& session.phase == SessionPhase::ClosingLocal ==> t.actions == st.actions.push(
                ActionState::CloseSession { conv_id: conv, reason: session.pending_close->0 },
            )
            &&& session.phase != SessionPhase::ClosingLocal ==> t.actions == st.actions
        }),
{
    reveal(model::closed_finished);
}

/// When a session has nothing left to do: one that closes here once everything it sent has
/// been acknowledged, and any but an open one once its deadline has come.
pub proof fn law_when_a_session_is_finished(session: SessionState, elapsed_ms: u64)
    ensures
        ({
            let late = session.close_deadline_at is Some && session.close_deadline_at->0
                <= elapsed_ms;
            let quiet = session.kcp.snd_queue.len() == 0 && session.kcp.snd_buf.len() == 0;
            model::finished(session, elapsed_ms) <==> match session.phase {
                SessionPhase::Open => false,
                SessionPhase::ClosingLocal => late || quiet,
                _ => late,
            }
        }),
{
}

/// The first packet of a session creates it, bound to its sender, with a deadline by which
/// the peer has to open it; a later packet finds it as it is.
pub proof fn law_first_packet_binds_the_session(
    s: EndpointState,
    elapsed_ms: u64,
    peer_seq: u64,
    conv: u64,
)
    ensures
        ({
            let found = model::addressed_session(s, elapsed_ms, peer_seq, conv);
            &&& !s.sessions.contains_key(conv) ==> {
                &&& found.phase == SessionPhase::PendingRemote
                &&& found.peer_seq == Some(peer_seq)
                &&& found.close_deadline_at == Some(
                    after(elapsed_ms, s.params.close_deadline_ms as int) as u64,
                )
                &&& found.kcp.conv == conv
                &&& found.kcp.snd_queue.len() == 0 && found.kcp.rcv_nxt == 0
            }
            &&& s.sessions.contains_key(conv) ==> {
                &&& found.kcp == s.sessions[conv].kcp
                &&& found.phase == s.sessions[conv].phase
                &&& found.close_deadline_at == s.sessions[conv].close_deadline_at
                &&& found.peer_seq == if s.sessions[conv].peer_seq is Some {
                    s.sessions[conv].peer_seq
                } else {
                    Some(peer_seq)
                }
            }
        }),
{
}

/// A refused packet is counted and its channel rested; the sample that it was is no longer
/// under way, and the next packet is one in its place.
pub proof fn law_refusal_is_counted(
    st: Step,
    elapsed_ms: u64,
    channel_id: u16,
    bytes: Seq<u8>,
)
    requires
        model::refused_acceptable(st.core, channel_id, bytes),
        !guarantees::refused_kcp(st.core, bytes),
    ensures
        ({
            let s = st.core;
            let e = packet::decode_packet(s.params.envelope_key, bytes)->Ok_0;
            let t = model::event_handled(
                st,
                elapsed_ms,
                EventState::TransportPacketSendFailed { channel_id, bytes },
            ).0;
            let id = (e.seq_id, e.seq_no);
            &&& t.actions == st.actions
            &&& t.core.metrics.send_failures == after(s.metrics.send_failures, 1)
            &&& t.core.outstanding == s.outstanding.remove(id)
            &&& t.core.next_feedback_at == if s.outstanding.contains_key(id) {
                elapsed_ms
            } else {
                s.next_feedback_at
            }
            &&& t.core.planner == routing::send_failed(s.planner, channel_id, elapsed_ms)
            &&& t.core.sessions == s.sessions
        }),
{
    reveal(model::send_refused);
}

// ---------------------------------------------------------------------------
// Counts
// ---------------------------------------------------------------------------

/// One more, where the count has not reached its end.
pub open spec fn one_more(count: u64) -> u64 {
    after(count, 1) as u64
}

/// Every packet that comes in is counted, and every one that is refused under the reason: a
/// wrong length or a route that goes on as dropped, a wrong tag as an authentication failure,
/// a wrong form as malformed, a stale or early one and a repeated one each on their own.
pub proof fn law_refused_packet_is_counted(
    st: Step,
    elapsed_ms: u64,
    channel_id: u16,
    bytes: Seq<u8>,
)
    ensures
        ({
            let s = st.core;
            let t = model::event_handled(
                st,
                elapsed_ms,
                EventState::TransportPacketReceived { channel_id, bytes },
            ).0;
            let counted = CoreMetrics {
                packets_received: one_more(s.metrics.packets_received),
                ..s.metrics
            };
            match packet::decode_packet(s.params.envelope_key, bytes) {
                Err(TransportPacketError::InvalidLength) => t.core.metrics == (CoreMetrics {
                    packets_dropped: one_more(counted.packets_dropped),
                    ..counted
                }),
                Err(TransportPacketError::Authentication) => t.core.metrics == (CoreMetrics {
                    authentication_failures: one_more(counted.authentication_failures),
                    ..counted
                }),
                Err(TransportPacketError::MalformedEnvelope) => t.core.metrics == (CoreMetrics {
                    malformed_packets: one_more(counted.malformed_packets),
                    ..counted
                }),
                Ok(e) => if e.route_plan.len() > 0 {
                    t.core.metrics == (CoreMetrics {
                        packets_dropped: one_more(counted.packets_dropped),
                        ..counted
                    })
                } else if !authentic(s, bytes) {
                    t.core.metrics == (CoreMetrics {
                        authentication_failures: one_more(counted.authentication_failures),
                        ..counted
                    })
                } else {
                    match sequence::check(
                        s.filter,
                        crate::machine::tick_at(s.params.boot_time_ms, elapsed_ms),
                        e.time,
                        e.seq_id,
                        e.seq_no,
                    ).1 {
                        Err(sequence::SequenceDrop::Freshness) => t.core.metrics == (CoreMetrics {
                            freshness_drops: one_more(counted.freshness_drops),
                            ..counted
                        }),
                        Err(sequence::SequenceDrop::Replay) => t.core.metrics == (CoreMetrics {
                            replay_drops: one_more(counted.replay_drops),
                            ..counted
                        }),
                        Ok(_) => true,
                    }
                },
            }
        }),
{
    reveal(model::packet_received);
}

} // verus!
