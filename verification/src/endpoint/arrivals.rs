//! What arrives at an endpoint, what it means to a session, and how long things are kept.
use vstd::prelude::*;

use crate::endpoint::model;
use crate::endpoint::model::{EndpointState, Step};
use crate::endpoint::session;
use crate::endpoint::session::{SessionPhase, SessionState};
use crate::kcp;
use crate::machine;
use crate::machine::{ActionState, CloseReason};
use crate::packet;
use crate::packet::TransportPacketError;
use crate::sequence;
use crate::wire;
use crate::wire::{EnvelopeState, SessionMessageState};

verus! {

/// `by` milliseconds after `at`, or the last time there is.
pub open spec fn from_now(at: u64, by: int) -> int {
    if at + by <= u64::MAX {
        at + by
    } else {
        u64::MAX as int
    }
}

/// Nothing but the number of dropped packets is new, and it has gone up by one or is at its
/// end.
pub open spec fn dropped_one(s: EndpointState, t: EndpointState) -> bool {
    &&& t.metrics.packets_dropped == from_now(s.metrics.packets_dropped, 1)
    &&& t == EndpointState {
        metrics: machine::CoreMetrics {
            packets_dropped: t.metrics.packets_dropped,
            ..s.metrics
        },
        ..s
    }
}

/// The deadline of a session: it goes when the peer opens the session, and a close sets one.
/// What else the session has stays, and what a session cannot use is counted as dropped.
pub proof fn law_peer_sets_the_deadline(
    st: Step,
    elapsed_ms: u64,
    conv: u64,
    m: SessionMessageState,
    other: u64,
)
    requires
        st.core.sessions.contains_key(conv),
        other != conv,
    ensures
        ({
            let s = st.core;
            let session = s.sessions[conv];
            let t = model::session_received(st, elapsed_ms, conv, m).core;
            let after = t.sessions[conv];
            &&& t.sessions.contains_key(other) == s.sessions.contains_key(other)
            &&& s.sessions.contains_key(other) ==> t.sessions[other] == s.sessions[other]
            &&& t.tombstones == s.tombstones
            &&& t.sessions.contains_key(conv) ==> after.kcp == session.kcp && after.peer_seq
                == session.peer_seq && after.pending_close == session.pending_close
                && after.close_queued == session.close_queued
            &&& match (session.phase, m) {
                (SessionPhase::PendingRemote, SessionMessageState::Open) => {
                    &&& after.close_deadline_at is None
                    &&& t.metrics == s.metrics
                },
                (SessionPhase::PendingRemote, _) => t.metrics.packets_dropped == from_now(
                    s.metrics.packets_dropped,
                    1,
                ),
                (SessionPhase::Open, SessionMessageState::Close { .. }) => {
                    &&& after.close_deadline_at is Some
                    &&& after.close_deadline_at->0 == from_now(
                        elapsed_ms,
                        s.params.close_deadline_ms as int,
                    )
                    &&& t.metrics == s.metrics
                },
                (SessionPhase::Open, _) => t == s,
                (_, SessionMessageState::Close { .. }) => t == s,
                (_, _) => dropped_one(s, t),
            }
        }),
{
    reveal(model::session_received);
}

/// The messages of a packet are heard one after the other.
pub proof fn law_messages_are_heard_in_order(
    st: Step,
    elapsed_ms: u64,
    conv: u64,
    messages: Seq<Seq<u8>>,
    message: Seq<u8>,
)
    ensures
        model::messages_received(st, elapsed_ms, conv, Seq::empty()) == st,
        model::messages_received(st, elapsed_ms, conv, messages.push(message))
            == model::session_received(
            model::messages_received(st, elapsed_ms, conv, messages),
            elapsed_ms,
            conv,
            wire::decode_session(message)->0,
        ),
    decreases messages.len(),
{
    reveal(model::messages_received);
    let longer = messages.push(message);
    if messages.len() == 0 {
        assert(longer.drop_first() =~= Seq::empty());
        assert(longer[0] == message);
        let next = model::session_received(
            st,
            elapsed_ms,
            conv,
            wire::decode_session(message)->0,
        );
        assert(model::messages_received(next, elapsed_ms, conv, longer.drop_first()) == next);
    } else {
        assert(longer[0] == messages[0]);
        assert(longer.drop_first() =~= messages.drop_first().push(message));
        law_messages_are_heard_in_order(
            model::session_received(
                st,
                elapsed_ms,
                conv,
                wire::decode_session(messages[0])->0,
            ),
            elapsed_ms,
            conv,
            messages.drop_first(),
            message,
        );
    }
}

/// A packet that is no packet of this network is counted for what is wrong with it, one that
/// has further to go as dropped, one with a message of somebody else as not authentic. None of
/// them does anything else.
pub proof fn law_strange_packets_do_nothing(st: Step, elapsed_ms: u64, bytes: Seq<u8>)
    ensures
        ({
            let s = st.core;
            let t = model::packet_received(st, elapsed_ms, bytes);
            let decoded = packet::decode_packet(s.params.envelope_key, bytes);
            &&& decoded matches Err(error) ==> {
                &&& t.actions == st.actions
                &&& t.core == EndpointState { metrics: t.core.metrics, ..s }
                &&& t.core.metrics.packets_dropped == from_now(
                    s.metrics.packets_dropped,
                    if error == TransportPacketError::InvalidLength {
                        1int
                    } else {
                        0
                    },
                )
                &&& t.core.metrics.authentication_failures == from_now(
                    s.metrics.authentication_failures,
                    if error == TransportPacketError::Authentication {
                        1int
                    } else {
                        0
                    },
                )
                &&& t.core.metrics.malformed_packets == from_now(
                    s.metrics.malformed_packets,
                    if error == TransportPacketError::MalformedEnvelope {
                        1int
                    } else {
                        0
                    },
                )
            }
            &&& decoded matches Ok(e) ==> {
                let opened = model::opened_message(
                    s.params.message_key,
                    wire::stamp_of(e),
                    e.payload,
                );
                &&& e.route_plan.len() > 0 ==> t.actions == st.actions && dropped_one(s, t.core)
                &&& e.route_plan.len() == 0 && opened is None ==> {
                    &&& t.actions == st.actions
                    &&& t.core.metrics.authentication_failures == from_now(
                        s.metrics.authentication_failures,
                        1,
                    )
                    &&& t.core.metrics.packets_dropped == s.metrics.packets_dropped
                    &&& t.core == EndpointState { metrics: t.core.metrics, ..s }
                }
            }
        }),
{
    reveal(model::packet_received);
}

/// A packet with a message of the peer is checked against the windows of its sender. Where
/// they refuse it, it changes nothing but the windows and the counts. Where they take it, it
/// is dealt with, and answered after that if it asks for an answer.
pub proof fn law_message_is_checked_first(st: Step, elapsed_ms: u64, bytes: Seq<u8>, e: EnvelopeState)
    requires
        packet::decode_packet(st.core.params.envelope_key, bytes) == Ok::<
            EnvelopeState,
            TransportPacketError,
        >(e),
        e.route_plan.len() == 0,
        model::opened_message(st.core.params.message_key, wire::stamp_of(e), e.payload) is Some,
    ensures
        ({
            let s = st.core;
            let stamp = wire::stamp_of(e);
            let plain = model::opened_message(s.params.message_key, stamp, e.payload)->0;
            let m = wire::decode_endpoint(plain)->0;
            let (windows, verdict) = sequence::check(
                s.filter,
                machine::tick_at(s.params.boot_time_ms, elapsed_ms),
                stamp.time,
                stamp.seq_id,
                stamp.seq_no,
            );
            let t = model::packet_received(st, elapsed_ms, bytes);
            let checked = model::admitted(s, elapsed_ms, stamp).0;
            let handled = model::message_handled(
                Step { core: checked, actions: st.actions },
                elapsed_ms,
                stamp,
                m,
            );
            &&& checked.filter == windows
            &&& checked == EndpointState { filter: windows, metrics: checked.metrics, ..s }
            &&& verdict is Err ==> t == (Step { core: checked, actions: st.actions })
            &&& verdict is Ok && wire::reply_depth_of(m) == 0 ==> t == handled
            &&& verdict is Ok && wire::reply_depth_of(m) > 0 ==> t == model::replied(
                handled,
                elapsed_ms,
                stamp,
                wire::reply_depth_of(m),
            )
        }),
{
    reveal(model::packet_received);
    reveal(model::replied);
}

/// A packet for a session that belongs to another sender is dropped.
pub proof fn law_packet_of_a_stranger_is_dropped(
    st: Step,
    elapsed_ms: u64,
    peer_seq: u64,
    packet: Seq<u8>,
)
    requires
        st.core.sessions.contains_key(kcp::model::conv_of(packet)),
        st.core.sessions[kcp::model::conv_of(packet)].peer_seq is Some,
        st.core.sessions[kcp::model::conv_of(packet)].peer_seq->0 != peer_seq,
    ensures
        ({
            let t = model::kcp_received(st, elapsed_ms, peer_seq, packet);
            t.actions == st.actions && dropped_one(st.core, t.core)
        }),
{
    reveal(model::kcp_received);
}

// ---------------------------------------------------------------------------
// Times
// ---------------------------------------------------------------------------

/// A closed session is remembered up to its time, and no longer.
pub proof fn law_tombstones_end(tombstones: Map<u64, u64>, elapsed_ms: u64, conv: u64)
    ensures
        ({
            let kept = model::tombstones_kept(tombstones, elapsed_ms);
            &&& kept.contains_key(conv) <==> tombstones.contains_key(conv) && elapsed_ms
                < tombstones[conv]
            &&& kept.contains_key(conv) ==> kept[conv] == tombstones[conv]
        }),
{
}

/// A session of a sender that has gone silent is reset: the shell is told, unless it never
/// heard of the session, and the session is remembered for 661504 milliseconds.
pub proof fn law_reset_session_is_remembered(st: Step, elapsed_ms: u64, seq_id: u64, conv: u64)
    requires
        st.core.sessions.contains_key(conv),
        st.core.sessions[conv].peer_seq == Some(seq_id),
    ensures
        ({
            let t = model::sessions_reset(st, elapsed_ms, seq_id, seq![conv]);
            &&& !t.core.sessions.contains_key(conv)
            &&& t.core.tombstones.contains_key(conv)
            &&& t.core.tombstones[conv] == from_now(elapsed_ms, 661_504)
            &&& st.core.sessions[conv].phase == SessionPhase::PendingRemote ==> t.actions
                == st.actions
            &&& st.core.sessions[conv].phase != SessionPhase::PendingRemote ==> t.actions
                == st.actions.push(
                ActionState::CloseSession { conv_id: conv, reason: CloseReason::Reset },
            )
        }),
{
    reveal(model::sessions_reset);
    reveal_with_fuel(model::sessions_reset, 2);
    assert(seq![conv].drop_first() =~= Seq::empty());
}

/// Sessions are reset one after the other, and so are senders.
pub proof fn law_resets_follow(
    st: Step,
    elapsed_ms: u64,
    seq_id: u64,
    conv: u64,
    convs: Seq<u64>,
    ids: Seq<u64>,
)
    ensures
        model::sessions_reset(st, elapsed_ms, seq_id, Seq::empty()) == st,
        model::sessions_reset(st, elapsed_ms, seq_id, seq![conv] + convs) == model::sessions_reset(
            model::sessions_reset(st, elapsed_ms, seq_id, seq![conv]),
            elapsed_ms,
            seq_id,
            convs,
        ),
        model::senders_reset(st, elapsed_ms, Seq::empty()) == st,
        model::senders_reset(st, elapsed_ms, seq![seq_id] + ids) == model::senders_reset(
            model::senders_reset(st, elapsed_ms, seq![seq_id]),
            elapsed_ms,
            ids,
        ),
{
    reveal_with_fuel(model::sessions_reset, 2);
    reveal_with_fuel(model::senders_reset, 2);
    assert((seq![conv] + convs).drop_first() =~= convs);
    assert((seq![conv] + convs)[0] == conv);
    assert(seq![conv].drop_first() =~= Seq::empty());
    assert((seq![seq_id] + ids).drop_first() =~= ids);
    assert((seq![seq_id] + ids)[0] == seq_id);
    assert(seq![seq_id].drop_first() =~= Seq::empty());
}

/// A session wants to be polled for what it has to send, and for its deadline, whichever comes
/// first; without either it does not.
pub proof fn law_deadline_of_a_session(s: SessionState, elapsed_ms: u64)
    requires
        s.kcp.timing.bounded(),
    ensures
        ({
            let at = session::session_deadline(s, elapsed_ms);
            let timer = from_now(
                elapsed_ms,
                kcp::model::check(s.kcp, session::kcp_time(elapsed_ms)) as int,
            );
            let busy = kcp::laws::pending(s.kcp) != 0;
            &&& busy ==> at <= timer
            &&& s.close_deadline_at is Some ==> at <= s.close_deadline_at->0
            &&& at == u64::MAX || busy && at == timer || s.close_deadline_at == Some(at)
        }),
{
    kcp::flushing::law_check_waits_for_the_first(s.kcp, session::kcp_time(elapsed_ms));
}

/// An endpoint wants to be polled at the tick in which the first window of a sender ends, if
/// it keeps more than one.
pub proof fn law_deadline_of_a_window(s: EndpointState, elapsed_ms: u64)
    ensures
        ({
            let at = model::window_deadline(s, elapsed_ms);
            let now = machine::tick_at(s.params.boot_time_ms, elapsed_ms);
            let next = sequence::next_expiry(s.filter, now, 1);
            let into_tick = machine::global_time(s.params.boot_time_ms, elapsed_ms) % 1024;
            &&& next is None <==> s.filter.len() <= 1
            &&& next is None ==> at == u64::MAX
            &&& next matches Some(delay) ==> {
                &&& delay >= into_tick ==> at == from_now(elapsed_ms, delay - into_tick)
                &&& delay < into_tick ==> at == elapsed_ms
            }
        }),
{
}

} // verus!
