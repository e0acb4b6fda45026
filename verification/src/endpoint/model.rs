//! The mathematical model of an endpoint: its state, and what each event makes of it.
use vstd::prelude::*;

use crate::crypto;
use crate::endpoint::session;
use crate::endpoint::session::{SessionPhase, SessionState};
use crate::kcp;
use crate::kcp::KcpParams;
use crate::limits;
use crate::limits::SESSION_TOMBSTONE_MS;
use crate::machine;
use crate::machine::{ActionState, CloseReason, CoreEventResult, CoreMetrics, EventState};
use crate::ordered;
use crate::packet;
use crate::random;
use crate::routing;
use crate::routing::RouteEdge;
use crate::sequence;
use crate::wire;
use crate::wire::EnvelopeStamp;

verus! {

/// One more than the greatest sender id and packet number.
pub const SEQUENCE_LIMIT: u64 = 0x1_0000_0000_0000;

/// Expired windows are kept while there is only one.
pub const SEQUENCE_SOFT_CAP: usize = 1;

/// What does not change while the endpoint lives.
#[verifier::ext_equal]
pub struct EndpointParams {
    pub envelope_key: Seq<u8>,
    pub message_key: Seq<u8>,
    pub boot_time_ms: u64,
    pub keepalive_interval_ms: u32,
    pub feedback_interval_ms: u32,
    pub feedback_timeout_ms: u32,
    /// The transport packet size that every channel carries.
    pub mtu: nat,
    pub kcp: KcpParams,
    pub scheduled_packet_overhead: usize,
    pub close_deadline_ms: u64,
}

/// A packet whose arrival the peer is asked to confirm.
#[verifier::ext_equal]
pub struct SampleState {
    pub route_plan: Seq<u16>,
    pub sent_at: u64,
    pub deadline: u64,
}

/// The state of an endpoint.
#[verifier::ext_equal]
pub struct EndpointState {
    pub params: EndpointParams,
    pub planner: routing::PlanGraph,
    pub random: random::RandomState,
    pub filter: sequence::FilterState,
    pub seq_id: u64,
    pub next_seq_no: u64,
    pub next_feedback_at: u64,
    /// The samples under way, by sender id and packet number.
    pub outstanding: Map<(u64, u64), SampleState>,
    pub next_keepalive_at: u64,
    pub sessions: Map<u64, SessionState>,
    /// When each closed session is forgotten.
    pub tombstones: Map<u64, u64>,
    pub next_conv_id: u64,
    pub metrics: CoreMetrics,
}

/// The endpoint, and the actions so far.
#[verifier::ext_equal]
pub struct Step {
    pub core: EndpointState,
    pub actions: Seq<ActionState>,
}

pub open spec fn acted(st: Step, action: ActionState) -> Step {
    Step { actions: st.actions.push(action), ..st }
}

pub open spec fn with_core(st: Step, core: EndpointState) -> Step {
    Step { core, ..st }
}

pub open spec fn count_dropped(s: EndpointState) -> EndpointState {
    EndpointState {
        metrics: CoreMetrics {
            packets_dropped: machine::bumped(s.metrics.packets_dropped),
            ..s.metrics
        },
        ..s
    }
}

/// `a + b`, at most the greatest time.
pub open spec fn later(a: u64, b: int) -> u64 {
    if a + b <= u64::MAX {
        (a + b) as u64
    } else {
        u64::MAX
    }
}

pub open spec fn put_session(s: EndpointState, conv: u64, session: SessionState) -> EndpointState {
    EndpointState { sessions: s.sessions.insert(conv, session), ..s }
}

pub open spec fn drop_session(s: EndpointState, conv: u64) -> EndpointState {
    EndpointState { sessions: s.sessions.remove(conv), ..s }
}

// ---------------------------------------------------------------------------
// Construction
// ---------------------------------------------------------------------------

/// The ends of the edges of each node.
pub open spec fn ends_of_config(g: Seq<Seq<RouteEdge>>) -> Seq<Seq<int>> {
    Seq::new(g.len(), |v: int| Seq::new(g[v].len(), |k: int| g[v][k].next as int))
}

pub open spec fn ends_of_plan(g: routing::PlanGraph) -> Seq<Seq<int>> {
    Seq::new(g.len(), |v: int| Seq::new(g[v].len(), |k: int| g[v][k].next as int))
}

/// The number of edges of the longest way from node `v` over its first `k` edges.
pub open spec fn longest_over(ends: Seq<Seq<int>>, v: int, k: nat) -> nat
    decreases ends.len() - v, k,
    when 0 <= v < ends.len()
{
    if k == 0 {
        0
    } else {
        let shorter = longest_over(ends, v, (k - 1) as nat);
        let next = ends[v][k - 1];
        let way = if v < next < ends.len() {
            longest_over(ends, next, ends[next].len()) + 1
        } else {
            1
        };
        if way > shorter {
            way
        } else {
            shorter
        }
    }
}

/// The number of edges of the longest way from node `v`.
pub open spec fn longest(ends: Seq<Seq<int>>, v: int) -> nat {
    longest_over(ends, v, ends[v].len())
}

/// The bytes of a transport packet around the endpoint message, on the longest route.
pub open spec fn packet_overhead(hops: nat, padding_reserve: u8) -> int {
    48 + padding_reserve + (hops - 1) * 2
}

// ---------------------------------------------------------------------------
// Sending
// ---------------------------------------------------------------------------

/// The sealed endpoint message: a tag, then the ciphertext.
pub open spec fn sealed_message(
    key: Seq<u8>,
    stamp: EnvelopeStamp,
    m: wire::EndpointMessageState,
) -> Seq<u8> {
    let (ciphertext, tag) = crypto::aegis_sealed(
        key,
        wire::header_bytes(stamp, 0),
        wire::encode_endpoint(m),
        Seq::empty(),
    );
    tag + ciphertext
}

/// The encoded endpoint message in a payload, if it is authentic.
pub open spec fn opened_message(
    key: Seq<u8>,
    stamp: EnvelopeStamp,
    payload: Seq<u8>,
) -> Option<Seq<u8>> {
    if payload.len() < 16 {
        None
    } else {
        crypto::aegis_opened(
            key,
            wire::header_bytes(stamp, 0),
            payload.skip(16),
            payload.take(16),
            Seq::empty(),
        )
    }
}

pub open spec fn feedback_due(s: EndpointState, elapsed_ms: u64) -> bool {
    elapsed_ms >= s.next_feedback_at
}

/// The length of a transport packet with an empty padding.
pub open spec fn unpadded_len(plan_len: nat, payload_len: nat) -> int {
    48 + 2 * (plan_len - 1) + payload_len
}

/// Puts a payload into an envelope and sends it on the best route, if there is one.
#[verifier::opaque]
pub open spec fn envelope_sent(
    st: Step,
    elapsed_ms: u64,
    stamp: EnvelopeStamp,
    payload: Seq<u8>,
    sample: bool,
) -> Step {
    let s = st.core;
    let scheduled = (payload.len() + s.params.scheduled_packet_overhead) as usize;
    let (planner, plan) = routing::planned(s.planner, elapsed_ms, scheduled, sample);
    match plan {
        None => st,
        Some(full_plan) => {
            let envelope = wire::EnvelopeState {
                time: stamp.time,
                seq_id: stamp.seq_id,
                seq_no: stamp.seq_no,
                route_plan: full_plan.drop_first(),
                payload,
                padding_len: packet::random_padding(
                    s.random,
                    s.params.mtu - unpadded_len(full_plan.len(), payload.len()),
                ),
            };
            let padded = random::skip_bytes(s.random, 8);
            let sealed = random::skip_bytes(padded, 16);
            let interval = s.params.feedback_interval_ms as int;
            Step {
                core: EndpointState {
                    planner,
                    random: if sample {
                        random::skip_bytes(sealed, 8)
                    } else {
                        sealed
                    },
                    metrics: CoreMetrics {
                        packets_sent: machine::bumped(s.metrics.packets_sent),
                        ..s.metrics
                    },
                    next_keepalive_at: if s.params.keepalive_interval_ms != 0 {
                        later(elapsed_ms, s.params.keepalive_interval_ms as int)
                    } else {
                        s.next_keepalive_at
                    },
                    outstanding: if sample {
                        s.outstanding.insert(
                            (stamp.seq_id, stamp.seq_no),
                            SampleState {
                                route_plan: full_plan,
                                sent_at: elapsed_ms,
                                deadline: later(elapsed_ms, s.params.feedback_timeout_ms as int),
                            },
                        )
                    } else {
                        s.outstanding
                    },
                    next_feedback_at: if sample {
                        later(
                            elapsed_ms,
                            interval + random::next_u64(sealed) as int % interval,
                        )
                    } else {
                        s.next_feedback_at
                    },
                    ..s
                },
                actions: st.actions.push(
                    ActionState::SendTransportPacket {
                        channel_id: full_plan[0],
                        bytes: packet::encode_packet(s.params.envelope_key, padded, envelope),
                    },
                ),
            }
        },
    }
}

/// The endpoint after a packet number has been given out.
pub open spec fn numbered(s: EndpointState) -> EndpointState {
    if s.next_seq_no >= SEQUENCE_LIMIT {
        EndpointState {
            seq_id: random::next_u64(s.random) % SEQUENCE_LIMIT,
            next_seq_no: 1,
            random: random::skip_bytes(s.random, 8),
            ..s
        }
    } else {
        EndpointState { next_seq_no: (s.next_seq_no + 1) as u64, ..s }
    }
}

/// The stamp of the next packet.
pub open spec fn next_stamp(s: EndpointState, elapsed_ms: u64) -> EnvelopeStamp {
    EnvelopeStamp {
        time: machine::tick_at(s.params.boot_time_ms, elapsed_ms),
        seq_id: numbered(s).seq_id,
        seq_no: (numbered(s).next_seq_no - 1) as u64,
    }
}

/// Seals an endpoint message under the next packet number and sends it.
#[verifier::opaque]
pub open spec fn message_sent(
    st: Step,
    elapsed_ms: u64,
    m: wire::EndpointMessageState,
    sample: bool,
) -> Step {
    let stamp = next_stamp(st.core, elapsed_ms);
    envelope_sent(
        with_core(st, numbered(st.core)),
        elapsed_ms,
        stamp,
        sealed_message(st.core.params.message_key, stamp, m),
        sample,
    )
}

pub open spec fn depth_of_sample(sample: bool) -> u8 {
    if sample {
        1
    } else {
        0
    }
}

/// Sends KCP packets, each in a message of its own.
#[verifier::opaque]
pub open spec fn packets_sent(st: Step, elapsed_ms: u64, packets: Seq<Seq<u8>>) -> Step
    decreases packets.len(),
{
    if packets.len() == 0 {
        st
    } else {
        let sample = feedback_due(st.core, elapsed_ms);
        let next = message_sent(
            st,
            elapsed_ms,
            wire::EndpointMessageState::KcpPacket {
                reply_depth: depth_of_sample(sample),
                packet: packets[0],
            },
            sample,
        );
        packets_sent(next, elapsed_ms, packets.drop_first())
    }
}

// ---------------------------------------------------------------------------
// Sessions
// ---------------------------------------------------------------------------

pub open spec fn deadline_hit(session: SessionState, elapsed_ms: u64) -> bool {
    session.close_deadline_at is Some && elapsed_ms >= session.close_deadline_at->0
}

/// The session has nothing left to do.
pub open spec fn finished(session: SessionState, elapsed_ms: u64) -> bool {
    match session.phase {
        SessionPhase::PendingRemote => deadline_hit(session, elapsed_ms),
        SessionPhase::ClosingLocal => kcp::laws::pending(session.kcp) == 0 || deadline_hit(
            session,
            elapsed_ms,
        ),
        SessionPhase::ClosingRemote => deadline_hit(session, elapsed_ms),
        SessionPhase::Open => false,
    }
}

/// Gives up a session that has nothing left to do, and remembers that it is closed.
#[verifier::opaque]
pub open spec fn closed_finished(st: Step, elapsed_ms: u64, conv: u64) -> Step {
    let s = st.core;
    if !s.sessions.contains_key(conv) || !finished(s.sessions[conv], elapsed_ms) {
        st
    } else {
        let session = s.sessions[conv];
        let gone = drop_session(s, conv);
        if session.phase == SessionPhase::PendingRemote {
            with_core(st, count_dropped(gone))
        } else {
            let buried = EndpointState {
                tombstones: s.tombstones.insert(
                    conv,
                    later(elapsed_ms, SESSION_TOMBSTONE_MS as int),
                ),
                ..gone
            };
            if session.phase == SessionPhase::ClosingLocal {
                acted(
                    with_core(st, buried),
                    ActionState::CloseSession {
                        conv_id: conv,
                        reason: session.pending_close->0,
                    },
                )
            } else {
                with_core(st, buried)
            }
        }
    }
}

/// Hands a message to a session that has room for it.
#[verifier::opaque]
pub open spec fn session_sent(
    st: Step,
    elapsed_ms: u64,
    conv: u64,
    m: wire::SessionMessageState,
) -> Step {
    let session = st.core.sessions[conv];
    let (kcp, packets) = session::message_sent(session.kcp, elapsed_ms, m);
    let kept = with_core(st, put_session(st.core, conv, SessionState { kcp, ..session }));
    closed_finished(packets_sent(kept, elapsed_ms, packets), elapsed_ms, conv)
}

/// A local close can be announced now.
pub open spec fn close_ready(s: EndpointState, elapsed_ms: u64, conv: u64) -> bool {
    &&& s.sessions.contains_key(conv)
    &&& s.sessions[conv].phase == SessionPhase::ClosingLocal
    &&& !s.sessions[conv].close_queued
    &&& elapsed_ms < s.sessions[conv].close_deadline_at->0
    &&& kcp::laws::pending(s.sessions[conv].kcp) < s.params.kcp.send_window
}

/// Announces a local close as soon as the queue has room.
#[verifier::opaque]
pub open spec fn close_announced(st: Step, elapsed_ms: u64, conv: u64) -> Step {
    if !close_ready(st.core, elapsed_ms, conv) {
        st
    } else {
        let session = st.core.sessions[conv];
        session_sent(
            with_core(
                st,
                put_session(st.core, conv, SessionState { close_queued: true, ..session }),
            ),
            elapsed_ms,
            conv,
            wire::SessionMessageState::Close { reason: session.pending_close->0 },
        )
    }
}

/// What a message of the peer makes of a session.
#[verifier::opaque]
pub open spec fn session_received(
    st: Step,
    elapsed_ms: u64,
    conv: u64,
    m: wire::SessionMessageState,
) -> Step {
    let s = st.core;
    if !s.sessions.contains_key(conv) {
        st
    } else {
        let session = s.sessions[conv];
        match m {
            wire::SessionMessageState::Open => match session.phase {
                SessionPhase::PendingRemote => acted(
                    with_core(
                        st,
                        put_session(
                            s,
                            conv,
                            SessionState {
                                phase: SessionPhase::Open,
                                close_deadline_at: None,
                                ..session
                            },
                        ),
                    ),
                    ActionState::OpenSession { conv_id: conv },
                ),
                SessionPhase::Open => st,
                _ => with_core(st, count_dropped(s)),
            },
            wire::SessionMessageState::Data { bytes } => match session.phase {
                SessionPhase::Open => acted(
                    st,
                    ActionState::WriteSession { conv_id: conv, bytes },
                ),
                SessionPhase::PendingRemote => with_core(st, count_dropped(drop_session(s, conv))),
                _ => with_core(st, count_dropped(s)),
            },
            wire::SessionMessageState::Close { reason } => match session.phase {
                SessionPhase::PendingRemote => with_core(st, count_dropped(drop_session(s, conv))),
                SessionPhase::Open => acted(
                    with_core(
                        st,
                        put_session(
                            s,
                            conv,
                            SessionState {
                                phase: SessionPhase::ClosingRemote,
                                close_deadline_at: Some(
                                    later(elapsed_ms, s.params.close_deadline_ms as int),
                                ),
                                ..session
                            },
                        ),
                    ),
                    ActionState::CloseSession { conv_id: conv, reason },
                ),
                _ => st,
            },
        }
    }
}

/// The messages of the peer, one after the other.
#[verifier::opaque]
pub open spec fn messages_received(
    st: Step,
    elapsed_ms: u64,
    conv: u64,
    messages: Seq<Seq<u8>>,
) -> Step
    decreases messages.len(),
{
    if messages.len() == 0 {
        st
    } else {
        messages_received(
            session_received(st, elapsed_ms, conv, wire::decode_session(messages[0])->0),
            elapsed_ms,
            conv,
            messages.drop_first(),
        )
    }
}

// ---------------------------------------------------------------------------
// Packets of the peer
// ---------------------------------------------------------------------------

/// The session that a packet belongs to; the first packet of a session creates it.
pub open spec fn addressed_session(
    s: EndpointState,
    elapsed_ms: u64,
    peer_seq: u64,
    conv: u64,
) -> SessionState {
    if s.sessions.contains_key(conv) {
        let session = s.sessions[conv];
        if session.peer_seq is None {
            SessionState { peer_seq: Some(peer_seq), ..session }
        } else {
            session
        }
    } else {
        SessionState {
            peer_seq: Some(peer_seq),
            close_deadline_at: Some(later(elapsed_ms, s.params.close_deadline_ms as int)),
            ..session::new_session(conv, s.params.kcp, SessionPhase::PendingRemote)
        }
    }
}

/// The session is bound to another sender.
pub open spec fn foreign(s: EndpointState, peer_seq: u64, conv: u64) -> bool {
    s.sessions.contains_key(conv) && s.sessions[conv].peer_seq is Some
        && s.sessions[conv].peer_seq->0 != peer_seq
}

/// What a KCP packet of the peer brings about.
#[verifier::opaque]
pub open spec fn kcp_received(
    st: Step,
    elapsed_ms: u64,
    peer_seq: u64,
    packet: Seq<u8>,
) -> Step {
    let s = st.core;
    let conv = kcp::model::conv_of(packet);
    if s.tombstones.contains_key(conv) || foreign(s, peer_seq, conv) {
        with_core(st, count_dropped(s))
    } else {
        let session = addressed_session(s, elapsed_ms, peer_seq, conv);
        let taken = session::packet_taken(session.kcp, elapsed_ms, packet);
        let kept = with_core(st, put_session(s, conv, SessionState { kcp: taken.kcp, ..session }));
        let answered = packets_sent(kept, elapsed_ms, taken.packets);
        let handled = messages_received(answered, elapsed_ms, conv, taken.messages);
        closed_finished(close_announced(handled, elapsed_ms, conv), elapsed_ms, conv)
    }
}

/// What an authentic message brings about, apart from the reply that it may ask for.
#[verifier::opaque]
pub open spec fn message_handled(
    st: Step,
    elapsed_ms: u64,
    stamp: EnvelopeStamp,
    m: wire::EndpointMessageState,
) -> Step {
    match m {
        wire::EndpointMessageState::KcpPacket { packet, .. } => kcp_received(
            st,
            elapsed_ms,
            stamp.seq_id,
            packet,
        ),
        wire::EndpointMessageState::KeepAlive { .. } => st,
        wire::EndpointMessageState::RouteReply { received_seq_id, received_seq_no, .. } => {
            let id = (received_seq_id, received_seq_no);
            if st.core.outstanding.contains_key(id) {
                let sample = st.core.outstanding[id];
                with_core(
                    st,
                    EndpointState {
                        outstanding: st.core.outstanding.remove(id),
                        planner: routing::feedback(
                            st.core.planner,
                            sample.route_plan,
                            sample.sent_at,
                            true,
                        ),
                        ..st.core
                    },
                )
            } else {
                st
            }
        },
    }
}

/// The answer to a message of this depth. It asks in turn where a sample is due, up to
/// depth 3.
pub open spec fn reply_to(
    s: EndpointState,
    elapsed_ms: u64,
    stamp: EnvelopeStamp,
    reply_depth: u8,
) -> wire::EndpointMessageState {
    wire::EndpointMessageState::RouteReply {
        reply_depth: if reply_depth < 3 && feedback_due(s, elapsed_ms) {
            (reply_depth + 1) as u8
        } else {
            0
        },
        received_seq_id: stamp.seq_id,
        received_seq_no: stamp.seq_no,
    }
}

/// Answers a message that asks for it.
#[verifier::opaque]
pub open spec fn replied(
    st: Step,
    elapsed_ms: u64,
    stamp: EnvelopeStamp,
    reply_depth: u8,
) -> Step {
    if reply_depth == 0 {
        st
    } else {
        let m = reply_to(st.core, elapsed_ms, stamp, reply_depth);
        message_sent(st, elapsed_ms, m, wire::reply_depth_of(m) > 0)
    }
}

/// The windows and metrics after a packet with this stamp, and whether it is taken.
pub open spec fn admitted(
    s: EndpointState,
    elapsed_ms: u64,
    stamp: EnvelopeStamp,
) -> (EndpointState, bool) {
    let (filter, metrics, accepted) = machine::checked_sequence(
        s.filter,
        s.metrics,
        machine::tick_at(s.params.boot_time_ms, elapsed_ms),
        stamp,
    );
    if accepted {
        (
            EndpointState {
                filter,
                metrics: machine::noted_sequence(
                    metrics,
                    s.params.boot_time_ms,
                    elapsed_ms,
                    stamp.time,
                    s.filter.len() == 0,
                ),
                ..s
            },
            true,
        )
    } else {
        (EndpointState { filter, metrics, ..s }, false)
    }
}

/// What a transport packet brings about.
#[verifier::opaque]
pub open spec fn packet_received(st: Step, elapsed_ms: u64, bytes: Seq<u8>) -> Step {
    let s = st.core;
    match packet::decode_packet(s.params.envelope_key, bytes) {
        Err(error) => with_core(
            st,
            EndpointState { metrics: machine::count_packet_error(s.metrics, error), ..s },
        ),
        Ok(e) => if e.route_plan.len() > 0 {
            with_core(st, count_dropped(s))
        } else {
            let stamp = wire::stamp_of(e);
            match opened_message(s.params.message_key, stamp, e.payload) {
                None => with_core(
                    st,
                    EndpointState {
                        metrics: CoreMetrics {
                            authentication_failures: machine::bumped(
                                s.metrics.authentication_failures,
                            ),
                            ..s.metrics
                        },
                        ..s
                    },
                ),
                Some(plain) => {
                    let m = wire::decode_endpoint(plain)->0;
                    let (checked, accepted) = admitted(s, elapsed_ms, stamp);
                    if accepted {
                        replied(
                            message_handled(with_core(st, checked), elapsed_ms, stamp, m),
                            elapsed_ms,
                            stamp,
                            wire::reply_depth_of(m),
                        )
                    } else {
                        with_core(st, checked)
                    }
                },
            }
        },
    }
}

/// What the refusal of a packet by its channel brings about: the channel is rested, and a
/// KCP packet goes out again on another route.
#[verifier::opaque]
pub open spec fn send_refused(
    st: Step,
    elapsed_ms: u64,
    channel_id: u16,
    bytes: Seq<u8>,
) -> Step {
    let s = st.core;
    let e = packet::decode_packet(s.params.envelope_key, bytes)->Ok_0;
    let stamp = wire::stamp_of(e);
    let id = (e.seq_id, e.seq_no);
    let was_sample = s.outstanding.contains_key(id);
    let noted = EndpointState {
        metrics: CoreMetrics {
            send_failures: machine::bumped(s.metrics.send_failures),
            ..s.metrics
        },
        planner: routing::send_failed(s.planner, channel_id, elapsed_ms),
        outstanding: s.outstanding.remove(id),
        next_feedback_at: if was_sample {
            elapsed_ms
        } else {
            s.next_feedback_at
        },
        ..s
    };
    let plain = opened_message(s.params.message_key, stamp, e.payload)->0;
    if wire::decode_endpoint(plain)->0 is KcpPacket {
        envelope_sent(with_core(st, noted), elapsed_ms, stamp, e.payload, was_sample)
    } else {
        with_core(st, noted)
    }
}

// ---------------------------------------------------------------------------
// Events
// ---------------------------------------------------------------------------

/// The queue of the session has no room for a write of `len` bytes.
pub open spec fn write_blocked(s: EndpointState, conv: u64, len: nat) -> bool {
    kcp::laws::pending(s.sessions[conv].kcp) + session::message_segments(s.params.kcp, 1 + len)
        > s.params.kcp.send_window
}

/// What an event brings about, and what is told to the shell at once.
pub open spec fn event_handled(
    st: Step,
    elapsed_ms: u64,
    event: EventState,
) -> (Step, CoreEventResult) {
    let s = st.core;
    match event {
        EventState::SessionOpen => {
            let conv = s.next_conv_id;
            let opened = put_session(
                EndpointState { next_conv_id: conv.wrapping_add(1), ..s },
                conv,
                session::new_session(conv, s.params.kcp, SessionPhase::Open),
            );
            (
                session_sent(
                    with_core(st, opened),
                    elapsed_ms,
                    conv,
                    wire::SessionMessageState::Open,
                ),
                CoreEventResult::SessionCreated { conv_id: conv },
            )
        },
        EventState::SessionWrite { conv_id, bytes } => if write_blocked(s, conv_id, bytes.len()) {
            (st, CoreEventResult::SessionWriteBlocked)
        } else {
            (
                session_sent(
                    st,
                    elapsed_ms,
                    conv_id,
                    wire::SessionMessageState::Data { bytes },
                ),
                CoreEventResult::Handled,
            )
        },
        EventState::SessionClose { conv_id, reason } => {
            let closing = SessionState {
                phase: SessionPhase::ClosingLocal,
                close_deadline_at: Some(later(elapsed_ms, s.params.close_deadline_ms as int)),
                pending_close: Some(reason),
                ..s.sessions[conv_id]
            };
            (
                close_announced(
                    with_core(st, put_session(s, conv_id, closing)),
                    elapsed_ms,
                    conv_id,
                ),
                CoreEventResult::Handled,
            )
        },
        EventState::TransportPacketSendFailed { channel_id, bytes } => (
            send_refused(st, elapsed_ms, channel_id, bytes),
            CoreEventResult::Handled,
        ),
        EventState::TransportPacketReceived { bytes, .. } => (
            packet_received(
                with_core(
                    st,
                    EndpointState {
                        metrics: CoreMetrics {
                            packets_received: machine::bumped(s.metrics.packets_received),
                            ..s.metrics
                        },
                        ..s
                    },
                ),
                elapsed_ms,
                bytes,
            ),
            CoreEventResult::Handled,
        ),
    }
}

/// A KCP packet of the authenticated peer is well formed.
pub open spec fn kcp_acceptable(
    s: EndpointState,
    elapsed_ms: u64,
    peer_seq: u64,
    packet: Seq<u8>,
) -> bool {
    let conv = kcp::model::conv_of(packet);
    packet.len() >= 28 && (s.tombstones.contains_key(conv) || foreign(s, peer_seq, conv) || {
        let k = addressed_session(s, elapsed_ms, peer_seq, conv).kcp;
        &&& session::packet_parses(k, elapsed_ms, packet)
        &&& session::messages_decode(session::packet_taken(k, elapsed_ms, packet).messages)
    })
}

/// What an authenticated message has to satisfy: it is well formed and, if it is not dropped
/// as stale or replayed, so is the KCP packet in it.
pub open spec fn message_acceptable(
    s: EndpointState,
    elapsed_ms: u64,
    stamp: EnvelopeStamp,
    plain: Seq<u8>,
) -> bool {
    match wire::decode_endpoint(plain) {
        None => false,
        Some(m) => !admitted(s, elapsed_ms, stamp).1 || (m matches
            wire::EndpointMessageState::KcpPacket { packet, .. } ==> kcp_acceptable(
            s,
            elapsed_ms,
            stamp.seq_id,
            packet,
        )),
    }
}

/// A received packet is not authentic, or was made by a peer that follows the protocol.
#[verifier::opaque]
pub open spec fn received_acceptable(s: EndpointState, elapsed_ms: u64, bytes: Seq<u8>) -> bool {
    match packet::decode_packet(s.params.envelope_key, bytes) {
        Err(_) => true,
        Ok(e) => e.route_plan.len() > 0 || match opened_message(
            s.params.message_key,
            wire::stamp_of(e),
            e.payload,
        ) {
            None => true,
            Some(plain) => message_acceptable(s, elapsed_ms, wire::stamp_of(e), plain),
        },
    }
}

/// The packet was made by an endpoint with these keys and limits: it is authentic on both
/// levels, and its content fits the scheduled length.
#[verifier::opaque]
pub open spec fn made_here(p: EndpointParams, bytes: Seq<u8>) -> bool {
    &&& packet::decode_packet(p.envelope_key, bytes) matches Ok(e)
    &&& e.payload.len() + p.scheduled_packet_overhead <= p.mtu
    &&& opened_message(p.message_key, wire::stamp_of(e), e.payload) matches Some(plain)
    &&& wire::decode_endpoint(plain) is Some
}

/// A refused packet was made by this endpoint, for one of its channels.
pub open spec fn refused_acceptable(s: EndpointState, channel_id: u16, bytes: Seq<u8>) -> bool {
    routing::has_channel(s.planner[0], channel_id) && made_here(s.params, bytes)
}

/// A packet that is sent goes to a channel of the endpoint, fits the transmission unit, and
/// opens under the keys of the endpoint.
pub open spec fn sent_well(p: EndpointParams, g: routing::PlanGraph, action: ActionState) -> bool {
    action matches ActionState::SendTransportPacket { channel_id, bytes } ==> {
        &&& routing::has_channel(g[0], channel_id)
        &&& bytes.len() <= p.mtu
        &&& made_here(p, bytes)
    }
}

/// The action sends a packet that opens to this message under the keys of the endpoint.
pub open spec fn carries(p: EndpointParams, action: ActionState, m: wire::EndpointMessageState) -> bool {
    &&& action matches ActionState::SendTransportPacket { bytes, .. }
    &&& packet::decode_packet(p.envelope_key, bytes) matches Ok(e)
    &&& opened_message(p.message_key, wire::stamp_of(e), e.payload) matches Some(plain)
    &&& wire::decode_endpoint(plain) == Some(m)
}

/// All packets among the actions are sent well.
#[verifier::opaque]
pub open spec fn all_sent_well(
    p: EndpointParams,
    g: routing::PlanGraph,
    actions: Seq<ActionState>,
) -> bool {
    forall|i: int| 0 <= i < actions.len() ==> sent_well(p, g, #[trigger] actions[i])
}

/// All packets among the actions so far are sent well.
pub open spec fn well_sent(st: Step) -> bool {
    all_sent_well(st.core.params, st.core.planner, st.actions)
}

/// The events that the contract between core and shell admits.
pub open spec fn event_acceptable(s: EndpointState, elapsed_ms: u64, event: EventState) -> bool {
    match event {
        EventState::SessionOpen => true,
        EventState::SessionWrite { conv_id, bytes } => {
            &&& s.sessions.contains_key(conv_id)
            &&& s.sessions[conv_id].phase == SessionPhase::Open
            &&& write_blocked(s, conv_id, bytes.len()) || {
                &&& session::message_segments(s.params.kcp, 1 + bytes.len())
                    < s.params.kcp.receive_window
                &&& session::message_segments(s.params.kcp, 1 + bytes.len()) < 256
            }
        },
        EventState::SessionClose { conv_id, .. } => {
            &&& s.sessions.contains_key(conv_id)
            &&& s.sessions[conv_id].phase == SessionPhase::Open
        },
        EventState::TransportPacketSendFailed { channel_id, bytes } => refused_acceptable(
            s,
            channel_id,
            bytes,
        ),
        EventState::TransportPacketReceived { bytes, .. } => received_acceptable(
            s,
            elapsed_ms,
            bytes,
        ),
    }
}

// ---------------------------------------------------------------------------
// Time
// ---------------------------------------------------------------------------

/// Gives up the samples among `ids` whose deadline has passed.
#[verifier::opaque]
pub open spec fn samples_expired(
    s: EndpointState,
    elapsed_ms: u64,
    ids: Seq<(u64, u64)>,
) -> EndpointState
    decreases ids.len(),
{
    if ids.len() == 0 {
        s
    } else {
        let sample = s.outstanding[ids[0]];
        let next = if elapsed_ms < sample.deadline {
            s
        } else {
            EndpointState {
                outstanding: s.outstanding.remove(ids[0]),
                planner: routing::feedback(s.planner, sample.route_plan, sample.sent_at, false),
                ..s
            }
        };
        samples_expired(next, elapsed_ms, ids.drop_first())
    }
}

/// Resets the sessions among `convs` that are bound to the sender `seq_id`.
#[verifier::opaque]
pub open spec fn sessions_reset(
    st: Step,
    elapsed_ms: u64,
    seq_id: u64,
    convs: Seq<u64>,
) -> Step
    decreases convs.len(),
{
    if convs.len() == 0 {
        st
    } else {
        let s = st.core;
        let conv = convs[0];
        let next = if s.sessions.contains_key(conv) && s.sessions[conv].peer_seq == Some(seq_id) {
            let buried = EndpointState {
                sessions: s.sessions.remove(conv),
                tombstones: s.tombstones.insert(
                    conv,
                    later(elapsed_ms, SESSION_TOMBSTONE_MS as int),
                ),
                ..s
            };
            if s.sessions[conv].phase != SessionPhase::PendingRemote {
                acted(
                    with_core(st, buried),
                    ActionState::CloseSession { conv_id: conv, reason: CloseReason::Reset },
                )
            } else {
                with_core(st, buried)
            }
        } else {
            st
        };
        sessions_reset(next, elapsed_ms, seq_id, convs.drop_first())
    }
}

/// Resets the sessions of each of the senders `ids`.
#[verifier::opaque]
pub open spec fn senders_reset(st: Step, elapsed_ms: u64, ids: Seq<u64>) -> Step
    decreases ids.len(),
{
    if ids.len() == 0 {
        st
    } else {
        senders_reset(
            sessions_reset(
                st,
                elapsed_ms,
                ids[0],
                ordered::ascending(st.core.sessions.dom()),
            ),
            elapsed_ms,
            ids.drop_first(),
        )
    }
}

/// Gives up the windows of senders that are silent for too long, and their sessions.
#[verifier::opaque]
pub open spec fn senders_expired(st: Step, elapsed_ms: u64) -> Step {
    let s = st.core;
    let now = machine::tick_at(s.params.boot_time_ms, elapsed_ms);
    let ids = sequence::expiring(s.filter, now, SEQUENCE_SOFT_CAP as nat);
    senders_reset(
        with_core(st, EndpointState { filter: sequence::without(s.filter, ids), ..s }),
        elapsed_ms,
        ids,
    )
}

/// Forgets the closed sessions whose time is over.
pub open spec fn tombstones_kept(tombstones: Map<u64, u64>, elapsed_ms: u64) -> Map<u64, u64> {
    tombstones.restrict(
        Set::new(|conv: u64| tombstones.contains_key(conv) && elapsed_ms < tombstones[conv]),
    )
}

/// Runs the timers of one session.
#[verifier::opaque]
pub open spec fn session_polled(st: Step, elapsed_ms: u64, conv: u64) -> Step {
    let announced = close_announced(st, elapsed_ms, conv);
    let session = announced.core.sessions[conv];
    let (kcp, packets) = session::polled(session.kcp, elapsed_ms);
    let kept = with_core(
        announced,
        put_session(announced.core, conv, SessionState { kcp, ..session }),
    );
    closed_finished(packets_sent(kept, elapsed_ms, packets), elapsed_ms, conv)
}

/// Runs the timers of the sessions `convs`, one after the other.
#[verifier::opaque]
pub open spec fn sessions_polled(st: Step, elapsed_ms: u64, convs: Seq<u64>) -> Step
    decreases convs.len(),
{
    if convs.len() == 0 {
        st
    } else {
        sessions_polled(session_polled(st, elapsed_ms, convs[0]), elapsed_ms, convs.drop_first())
    }
}

/// Sends a keepalive if nothing else has been sent for the interval.
#[verifier::opaque]
pub open spec fn kept_alive(st: Step, elapsed_ms: u64) -> Step {
    let s = st.core;
    if s.params.keepalive_interval_ms != 0 && elapsed_ms >= s.next_keepalive_at {
        let sample = feedback_due(s, elapsed_ms);
        let sent = message_sent(
            st,
            elapsed_ms,
            wire::EndpointMessageState::KeepAlive { reply_depth: depth_of_sample(sample) },
            sample,
        );
        with_core(
            sent,
            EndpointState {
                next_keepalive_at: later(elapsed_ms, s.params.keepalive_interval_ms as int),
                ..sent.core
            },
        )
    } else {
        st
    }
}

/// What the passing of time brings about.
pub open spec fn polled(st: Step, elapsed_ms: u64) -> Step {
    let fed = samples_expired(
        st.core,
        elapsed_ms,
        ordered::ascending_pairs(st.core.outstanding.dom()),
    );
    let reset = senders_expired(with_core(st, fed), elapsed_ms);
    let forgotten = with_core(
        reset,
        EndpointState {
            tombstones: tombstones_kept(reset.core.tombstones, elapsed_ms),
            ..reset.core
        },
    );
    kept_alive(
        sessions_polled(
            forgotten,
            elapsed_ms,
            ordered::ascending(forgotten.core.sessions.dom()),
        ),
        elapsed_ms,
    )
}

/// The time in milliseconds until the next window of a silent sender can go.
pub open spec fn window_deadline(s: EndpointState, elapsed_ms: u64) -> u64 {
    match sequence::next_expiry(
        s.filter,
        machine::tick_at(s.params.boot_time_ms, elapsed_ms),
        SEQUENCE_SOFT_CAP as nat,
    ) {
        None => u64::MAX,
        Some(delay) => {
            let into_tick = machine::global_time(s.params.boot_time_ms, elapsed_ms) % 1024;
            later(
                elapsed_ms,
                if delay >= into_tick {
                    delay - into_tick
                } else {
                    0
                },
            )
        },
    }
}

/// `at` is a time at which the endpoint wants to be polled.
pub open spec fn wants_poll_at(s: EndpointState, elapsed_ms: u64, at: u64) -> bool {
    ||| exists|conv: u64| #[trigger]
        s.sessions.contains_key(conv) && at == session::session_deadline(
            s.sessions[conv],
            elapsed_ms,
        )
    ||| exists|conv: u64| #[trigger]
        s.tombstones.contains_key(conv) && at == s.tombstones[conv]
    ||| exists|id: (u64, u64)| #[trigger]
        s.outstanding.contains_key(id) && at == s.outstanding[id].deadline
    ||| s.params.keepalive_interval_ms != 0 && at == s.next_keepalive_at
    ||| at == window_deadline(s, elapsed_ms)
}

/// `at` is not later than any time at which the endpoint wants to be polled.
pub open spec fn not_later(s: EndpointState, elapsed_ms: u64, at: u64) -> bool {
    &&& forall|conv: u64| #[trigger]
        s.sessions.contains_key(conv) ==> at <= session::session_deadline(
            s.sessions[conv],
            elapsed_ms,
        )
    &&& forall|conv: u64| #[trigger] s.tombstones.contains_key(conv) ==> at <= s.tombstones[conv]
    &&& forall|id: (u64, u64)| #[trigger]
        s.outstanding.contains_key(id) ==> at <= s.outstanding[id].deadline
    &&& s.params.keepalive_interval_ms != 0 ==> at <= s.next_keepalive_at
    &&& at <= window_deadline(s, elapsed_ms)
}

// ---------------------------------------------------------------------------
// Invariant
// ---------------------------------------------------------------------------

/// What the configuration gives.
pub open spec fn params_ok(p: EndpointParams) -> bool {
    &&& p.mtu <= 65536
    &&& 28 < p.kcp.mtu
    &&& p.kcp.mtu + 17 + p.scheduled_packet_overhead == p.mtu
    &&& p.feedback_interval_ms > 0
    &&& session::message_segments(p.kcp, 2) < p.kcp.receive_window
    &&& p.kcp.send_window > 0
}

/// The planner has routes, and the longest one fits the packets.
pub open spec fn planner_ok(p: EndpointParams, g: routing::PlanGraph) -> bool {
    &&& routing::plan_graph_wf(g)
    &&& g.len() >= 2
    &&& 1 <= longest(ends_of_plan(g), 0) <= 64
    &&& packet_overhead(longest(ends_of_plan(g), 0), 1) <= p.scheduled_packet_overhead
}

pub open spec fn sessions_ok(p: EndpointParams, sessions: Map<u64, SessionState>) -> bool {
    forall|conv: u64| #[trigger]
        sessions.contains_key(conv) ==> session::session_ok(p.kcp, conv, sessions[conv])
}

/// Every sample under way has a plan that can be followed.
pub open spec fn samples_ok(
    g: routing::PlanGraph,
    outstanding: Map<(u64, u64), SampleState>,
) -> bool {
    forall|id: (u64, u64)| #[trigger]
        outstanding.contains_key(id) ==> routing::walkable(g, 0, outstanding[id].route_plan)
}

/// What every event keeps.
pub open spec fn endpoint_ok(s: EndpointState) -> bool {
    &&& params_ok(s.params)
    &&& planner_ok(s.params, s.planner)
    &&& sessions_ok(s.params, s.sessions)
    &&& samples_ok(s.planner, s.outstanding)
    &&& s.seq_id < SEQUENCE_LIMIT
    &&& s.next_seq_no <= SEQUENCE_LIMIT
}

} // verus!
