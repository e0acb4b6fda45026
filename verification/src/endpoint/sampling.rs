//! How many samples can be under way.
use vstd::prelude::*;

use crate::endpoint::driver;
use crate::endpoint::driver::EndpointConfig;
use crate::endpoint::model;
use crate::endpoint::model::{EndpointState, SampleState, Step};
use crate::endpoint::session;
use crate::endpoint::session::{SessionPhase, SessionState};
use crate::kcp;
use crate::machine;
use crate::machine::{CoreMetrics, EventState};
use crate::ordered;
use crate::packet;
use crate::routing;
use crate::sequence;
use crate::wire;
use crate::wire::EnvelopeStamp;

verus! {

/// A sample was sent by now, is given up after the timeout, and the next sample waits for the
/// interval after it.
pub open spec fn sample_ok(s: EndpointState, now: u64, sample: SampleState) -> bool {
    &&& sample.sent_at <= now
    &&& sample.deadline == model::later(sample.sent_at, s.params.feedback_timeout_ms as int)
    &&& model::later(sample.sent_at, s.params.feedback_interval_ms as int) <= s.next_feedback_at
}

/// At least the interval lies between two samples.
pub open spec fn apart(s: EndpointState, a: SampleState, b: SampleState) -> bool {
    ||| a.sent_at + s.params.feedback_interval_ms <= b.sent_at
    ||| b.sent_at + s.params.feedback_interval_ms <= a.sent_at
}

/// The samples under way are spaced by the interval.
pub open spec fn spaced(s: EndpointState, now: u64) -> bool {
    &&& s.params.feedback_interval_ms > 0
    &&& forall|id: (u64, u64)| #[trigger]
        s.outstanding.contains_key(id) ==> sample_ok(s, now, s.outstanding[id])
    &&& forall|a: (u64, u64), b: (u64, u64)|
        #![trigger s.outstanding.contains_key(a), s.outstanding.contains_key(b)]
        s.outstanding.contains_key(a) && s.outstanding.contains_key(b) && a != b ==> apart(
            s,
            s.outstanding[a],
            s.outstanding[b],
        )
}

/// No sample is past its deadline.
pub open spec fn none_overdue(s: EndpointState, now: u64) -> bool {
    forall|id: (u64, u64)| #[trigger]
        s.outstanding.contains_key(id) ==> now <= s.outstanding[id].deadline
}

/// The samples are spaced and, where `fresh` is set, none is past its deadline.
pub open spec fn sampled(s: EndpointState, now: u64, fresh: bool) -> bool {
    spaced(s, now) && (fresh ==> none_overdue(s, now))
}

/// Where the samples are spaced and none is past its deadline, no more are under way than fit
/// into the timeout: as many as there are intervals in it, rounded up, and one more.
pub proof fn law_samples_are_bounded(s: EndpointState, now: u64)
    requires
        spaced(s, now),
        none_overdue(s, now),
        s.outstanding.dom().finite(),
    ensures
        s.outstanding.len() <= routing::div_up(
            s.params.feedback_timeout_ms as int,
            s.params.feedback_interval_ms as int,
        ) + 1,
{
    let interval = s.params.feedback_interval_ms as int;
    let timeout = s.params.feedback_timeout_ms as int;
    let f = |id: (u64, u64)| s.outstanding[id].sent_at as int / interval;
    let ids = s.outstanding.dom();
    let first = if now >= timeout {
        (now - timeout) / interval
    } else {
        0
    };
    let last = now as int / interval;
    let places = vstd::set_lib::set_int_range(first, last + 1);
    assert forall|a: (u64, u64), b: (u64, u64)|
        ids.contains(a) && ids.contains(b) && #[trigger] f(a) == #[trigger] f(b) implies a
        == b by {
        if a != b {
            assert(s.outstanding.contains_key(a) && s.outstanding.contains_key(b));
            assert(apart(s, s.outstanding[a], s.outstanding[b]));
            let x = s.outstanding[a].sent_at as int;
            let y = s.outstanding[b].sent_at as int;
            lemma_next_place(x, y, interval);
            lemma_next_place(y, x, interval);
        }
    }
    vstd::set_lib::lemma_map_size(ids, ids.map(f), f);
    assert(ids.map(f).subset_of(places)) by {
        assert forall|place: int| ids.map(f).contains(place) implies places.contains(place) by {
            let id = choose|id: (u64, u64)| ids.contains(id) && f(id) == place;
            assert(s.outstanding.contains_key(id));
            let at = s.outstanding[id].sent_at as int;
            assert(sample_ok(s, now, s.outstanding[id]));
            assert(now <= s.outstanding[id].deadline);
            assert(now <= at + timeout);
            lemma_place_order(at, now as int, interval);
            if now >= timeout {
                lemma_place_order(now - timeout, at, interval);
            } else {
                lemma_place_order(0, at, interval);
                assert(0int / interval == 0) by (nonlinear_arith)
                    requires
                        interval > 0,
                ;
            }
        }
    }
    if now >= timeout {
        lemma_place_order(now - timeout, now as int, interval);
        lemma_places(now as int, timeout, interval);
    } else {
        lemma_place_order(now as int, timeout, interval);
        lemma_place_order(0, now as int, interval);
        assert(0int / interval == 0) by (nonlinear_arith)
            requires
                interval > 0,
        ;
        assert(timeout / interval <= (timeout + interval - 1) / interval) by {
            lemma_place_order(timeout, timeout + interval - 1, interval);
        }
    }
    lemma_rounded_up(timeout, interval);
    vstd::set_lib::lemma_int_range(first, last + 1);
    vstd::set_lib::lemma_len_subset(ids.map(f), places);
}

proof fn lemma_place_order(a: int, b: int, interval: int)
    by (nonlinear_arith)
    requires
        0 <= a <= b,
        interval > 0,
    ensures
        a / interval <= b / interval,
{
}

proof fn lemma_next_place(a: int, b: int, interval: int)
    by (nonlinear_arith)
    requires
        0 <= a,
        interval > 0,
    ensures
        a + interval <= b ==> a / interval < b / interval,
{
}

proof fn lemma_places(now: int, timeout: int, interval: int)
    by (nonlinear_arith)
    requires
        0 <= timeout <= now,
        interval > 0,
    ensures
        now / interval - (now - timeout) / interval <= (timeout + interval - 1) / interval,
{
}

/// Two ways to round up.
proof fn lemma_rounded_up(timeout: int, interval: int)
    requires
        0 <= timeout,
        interval > 0,
    ensures
        (timeout + interval - 1) / interval == routing::div_up(timeout, interval),
{
    if timeout > 0 {
        assert((timeout - 1 + interval) / interval == (timeout - 1) / interval + 1)
            by (nonlinear_arith)
            requires
                0 < timeout,
                interval > 0,
        ;
    } else {
        assert((interval - 1) / interval == 0) by (nonlinear_arith)
            requires
                interval > 0,
        ;
    }
}

/// An endpoint starts without samples, and samples that are spaced stay so while nothing
/// happens.
pub proof fn law_spacing_starts_and_lasts(
    config: EndpointConfig,
    s: EndpointState,
    now: u64,
    then: u64,
)
    requires
        driver::config_ok(config),
        spaced(s, now),
        now <= then,
    ensures
        spaced(driver::endpoint_init(config), 0),
        none_overdue(driver::endpoint_init(config), 0),
        spaced(s, then),
{
    assert forall|id: (u64, u64)| #[trigger] s.outstanding.contains_key(id) implies sample_ok(
        s,
        then,
        s.outstanding[id],
    ) by {
        assert(sample_ok(s, now, s.outstanding[id]));
    }
}

// ---------------------------------------------------------------------------
// Steps
// ---------------------------------------------------------------------------

/// The samples are as they were.
spec fn same_samples(s: EndpointState, t: EndpointState) -> bool {
    &&& t.params == s.params
    &&& t.outstanding == s.outstanding
    &&& t.next_feedback_at == s.next_feedback_at
}

proof fn lemma_envelope_sent(
    st: Step,
    now: u64,
    stamp: EnvelopeStamp,
    payload: Seq<u8>,
    sample: bool,
    fresh: bool,
)
    requires
        sampled(st.core, now, fresh),
        now < u64::MAX,
        sample ==> model::feedback_due(st.core, now),
    ensures
        sampled(model::envelope_sent(st, now, stamp, payload, sample).core, now, fresh),
{
    reveal(model::envelope_sent);
    let s = st.core;
    let t = model::envelope_sent(st, now, stamp, payload, sample).core;
    if sample && t.outstanding != s.outstanding {
        let new = (stamp.seq_id, stamp.seq_no);
        assert forall|id: (u64, u64)| #[trigger] t.outstanding.contains_key(id) implies sample_ok(
            t,
            now,
            t.outstanding[id],
        ) && (fresh ==> now <= t.outstanding[id].deadline) by {
            if id != new {
                assert(s.outstanding.contains_key(id));
            }
        }
        assert forall|a: (u64, u64), b: (u64, u64)|
            #![trigger t.outstanding.contains_key(a), t.outstanding.contains_key(b)]
            t.outstanding.contains_key(a) && t.outstanding.contains_key(b) && a != b implies apart(
            t,
            t.outstanding[a],
            t.outstanding[b],
        ) by {
            assert(a != new ==> s.outstanding.contains_key(a));
            assert(b != new ==> s.outstanding.contains_key(b));
        }
    }
}

proof fn lemma_message_sent(
    st: Step,
    now: u64,
    m: wire::EndpointMessageState,
    sample: bool,
    fresh: bool,
)
    requires
        sampled(st.core, now, fresh),
        now < u64::MAX,
        sample ==> model::feedback_due(st.core, now),
    ensures
        sampled(model::message_sent(st, now, m, sample).core, now, fresh),
{
    reveal(model::message_sent);
    let stamp = model::next_stamp(st.core, now);
    let next = model::with_core(st, model::numbered(st.core));
    assert(same_samples(st.core, next.core));
    let payload = model::sealed_message(st.core.params.message_key, stamp, m);
    lemma_envelope_sent(next, now, stamp, payload, sample, fresh);
}

proof fn lemma_packets_sent(st: Step, now: u64, packets: Seq<Seq<u8>>, fresh: bool)
    requires
        sampled(st.core, now, fresh),
        now < u64::MAX,
    ensures
        sampled(model::packets_sent(st, now, packets).core, now, fresh),
    decreases packets.len(),
{
    reveal(model::packets_sent);
    if packets.len() > 0 {
        let sample = model::feedback_due(st.core, now);
        let m = wire::EndpointMessageState::KcpPacket {
            reply_depth: model::depth_of_sample(sample),
            packet: packets[0],
        };
        lemma_message_sent(st, now, m, sample, fresh);
        lemma_packets_sent(
            model::message_sent(st, now, m, sample),
            now,
            packets.drop_first(),
            fresh,
        );
    }
}

proof fn lemma_closed_finished(st: Step, now: u64, conv: u64)
    ensures
        same_samples(st.core, model::closed_finished(st, now, conv).core),
{
    reveal(model::closed_finished);
}

proof fn lemma_session_sent(
    st: Step,
    now: u64,
    conv: u64,
    m: wire::SessionMessageState,
    fresh: bool,
)
    requires
        sampled(st.core, now, fresh),
        now < u64::MAX,
    ensures
        sampled(model::session_sent(st, now, conv, m).core, now, fresh),
{
    reveal(model::session_sent);
    let kept_session = st.core.sessions[conv];
    let (kcp, packets) = session::message_sent(kept_session.kcp, now, m);
    let kept = model::with_core(
        st,
        model::put_session(st.core, conv, SessionState { kcp, ..kept_session }),
    );
    assert(same_samples(st.core, kept.core));
    lemma_packets_sent(kept, now, packets, fresh);
    lemma_closed_finished(model::packets_sent(kept, now, packets), now, conv);
}

proof fn lemma_close_announced(st: Step, now: u64, conv: u64, fresh: bool)
    requires
        sampled(st.core, now, fresh),
        now < u64::MAX,
    ensures
        sampled(model::close_announced(st, now, conv).core, now, fresh),
{
    reveal(model::close_announced);
    if model::close_ready(st.core, now, conv) {
        let kept_session = st.core.sessions[conv];
        let next = model::with_core(
            st,
            model::put_session(
                st.core,
                conv,
                SessionState { close_queued: true, ..kept_session },
            ),
        );
        assert(same_samples(st.core, next.core));
        let m = wire::SessionMessageState::Close { reason: kept_session.pending_close->0 };
        lemma_session_sent(next, now, conv, m, fresh);
    }
}

proof fn lemma_messages_received(st: Step, now: u64, conv: u64, messages: Seq<Seq<u8>>)
    ensures
        same_samples(st.core, model::messages_received(st, now, conv, messages).core),
    decreases messages.len(),
{
    reveal(model::messages_received);
    if messages.len() > 0 {
        reveal(model::session_received);
        let m = wire::decode_session(messages[0])->0;
        let next = model::session_received(st, now, conv, m);
        assert(same_samples(st.core, next.core));
        lemma_messages_received(next, now, conv, messages.drop_first());
    }
}

proof fn lemma_kcp_received(st: Step, now: u64, peer_seq: u64, packet: Seq<u8>)
    requires
        sampled(st.core, now, false),
        now < u64::MAX,
    ensures
        sampled(model::kcp_received(st, now, peer_seq, packet).core, now, false),
{
    reveal(model::kcp_received);
    let s = st.core;
    let conv = kcp::model::conv_of(packet);
    if s.tombstones.contains_key(conv) || model::foreign(s, peer_seq, conv) {
        assert(same_samples(s, model::count_dropped(s)));
    } else {
        let addressed = model::addressed_session(s, now, peer_seq, conv);
        let taken = session::packet_taken(addressed.kcp, now, packet);
        let kept = model::with_core(
            st,
            model::put_session(s, conv, SessionState { kcp: taken.kcp, ..addressed }),
        );
        assert(same_samples(s, kept.core));
        lemma_packets_sent(kept, now, taken.packets, false);
        let answered = model::packets_sent(kept, now, taken.packets);
        lemma_messages_received(answered, now, conv, taken.messages);
        let handled = model::messages_received(answered, now, conv, taken.messages);
        lemma_close_announced(handled, now, conv, false);
        lemma_closed_finished(model::close_announced(handled, now, conv), now, conv);
    }
}

/// Taking a sample away leaves the others as they were.
proof fn lemma_sample_removed(s: EndpointState, t: EndpointState, now: u64, id: (u64, u64))
    requires
        spaced(s, now),
        t.params == s.params,
        t.outstanding == s.outstanding.remove(id),
        t.next_feedback_at == s.next_feedback_at,
    ensures
        spaced(t, now),
{
    assert forall|other: (u64, u64)| #[trigger]
        t.outstanding.contains_key(other) implies sample_ok(t, now, t.outstanding[other]) by {
        assert(s.outstanding.contains_key(other));
    }
    assert forall|a: (u64, u64), b: (u64, u64)|
        #![trigger t.outstanding.contains_key(a), t.outstanding.contains_key(b)]
        t.outstanding.contains_key(a) && t.outstanding.contains_key(b) && a != b implies apart(
        t,
        t.outstanding[a],
        t.outstanding[b],
    ) by {
        assert(s.outstanding.contains_key(a) && s.outstanding.contains_key(b));
    }
}

proof fn lemma_packet_received(st: Step, now: u64, bytes: Seq<u8>)
    requires
        spaced(st.core, now),
        now < u64::MAX,
    ensures
        spaced(model::packet_received(st, now, bytes).core, now),
{
    reveal(model::packet_received);
    reveal(model::message_handled);
    reveal(model::replied);
    let s = st.core;
    if let Ok(e) = packet::decode_packet(s.params.envelope_key, bytes) {
        let stamp = wire::stamp_of(e);
        let opened = model::opened_message(s.params.message_key, stamp, e.payload);
        if e.route_plan.len() == 0 && opened is Some {
            let m = wire::decode_endpoint(opened->0)->0;
            let (checked, accepted) = model::admitted(s, now, stamp);
            assert(same_samples(s, checked));
            if accepted {
                let admitted = model::with_core(st, checked);
                let handled = model::message_handled(admitted, now, stamp, m);
                match m {
                    wire::EndpointMessageState::KcpPacket { packet, .. } => {
                        lemma_kcp_received(admitted, now, stamp.seq_id, packet);
                    },
                    wire::EndpointMessageState::RouteReply {
                        received_seq_id,
                        received_seq_no,
                        ..
                    } => {
                        let id = (received_seq_id, received_seq_no);
                        if checked.outstanding.contains_key(id) {
                            lemma_sample_removed(checked, handled.core, now, id);
                        }
                    },
                    _ => {},
                }
                let depth = wire::reply_depth_of(m);
                if depth != 0 {
                    let reply = model::reply_to(handled.core, now, stamp, depth);
                    let sample = wire::reply_depth_of(reply) > 0;
                    lemma_message_sent(handled, now, reply, sample, false);
                }
            }
        }
    }
}

/// The refused packet was the newest sample, or no sample.
pub open spec fn refused_in_order(s: EndpointState, event: EventState) -> bool {
    event matches EventState::TransportPacketSendFailed { bytes, .. } ==> {
        let e = packet::decode_packet(s.params.envelope_key, bytes)->Ok_0;
        let id = (e.seq_id, e.seq_no);
        s.outstanding.contains_key(id) ==> forall|other: (u64, u64)| #[trigger]
            s.outstanding.contains_key(other) ==> s.outstanding[other].sent_at
                <= s.outstanding[id].sent_at
    }
}

proof fn lemma_send_refused(st: Step, now: u64, channel_id: u16, bytes: Seq<u8>)
    requires
        spaced(st.core, now),
        now < u64::MAX,
        refused_in_order(
            st.core,
            EventState::TransportPacketSendFailed { channel_id, bytes },
        ),
    ensures
        spaced(model::send_refused(st, now, channel_id, bytes).core, now),
{
    reveal(model::send_refused);
    let s = st.core;
    let e = packet::decode_packet(s.params.envelope_key, bytes)->Ok_0;
    let id = (e.seq_id, e.seq_no);
    let was_sample = s.outstanding.contains_key(id);
    let noted = EndpointState {
        metrics: CoreMetrics {
            send_failures: machine::bumped(s.metrics.send_failures),
            ..s.metrics
        },
        planner: routing::send_failed(s.planner, channel_id, now),
        outstanding: s.outstanding.remove(id),
        next_feedback_at: if was_sample {
            now
        } else {
            s.next_feedback_at
        },
        ..s
    };
    let waiting = EndpointState { next_feedback_at: s.next_feedback_at, ..noted };
    lemma_sample_removed(s, waiting, now, id);
    assert(spaced(noted, now)) by {
        assert forall|other: (u64, u64)| #[trigger]
            noted.outstanding.contains_key(other) implies sample_ok(
            noted,
            now,
            noted.outstanding[other],
        ) by {
            assert(waiting.outstanding.contains_key(other));
            assert(s.outstanding.contains_key(other));
            if was_sample {
                assert(apart(s, s.outstanding[other], s.outstanding[id]));
                assert(sample_ok(s, now, s.outstanding[id]));
            }
        }
        assert forall|a: (u64, u64), b: (u64, u64)|
            #![trigger noted.outstanding.contains_key(a), noted.outstanding.contains_key(b)]
            noted.outstanding.contains_key(a) && noted.outstanding.contains_key(b) && a
                != b implies apart(noted, noted.outstanding[a], noted.outstanding[b]) by {
            assert(waiting.outstanding.contains_key(a) && waiting.outstanding.contains_key(b));
        }
    }
    let stamp = wire::stamp_of(e);
    lemma_envelope_sent(model::with_core(st, noted), now, stamp, e.payload, was_sample, false);
}

/// Every event keeps the samples spaced by the interval, as long as refusals come in the order
/// of the packets.
pub proof fn law_events_keep_samples_spaced(st: Step, now: u64, event: EventState)
    requires
        spaced(st.core, now),
        now < u64::MAX,
        refused_in_order(st.core, event),
    ensures
        spaced(model::event_handled(st, now, event).0.core, now),
{
    let s = st.core;
    match event {
        EventState::SessionOpen => {
            let conv = s.next_conv_id;
            let opened = model::put_session(
                EndpointState { next_conv_id: conv.wrapping_add(1), ..s },
                conv,
                session::new_session(conv, s.params.kcp, SessionPhase::Open),
            );
            assert(same_samples(s, opened));
            let m = wire::SessionMessageState::Open;
            lemma_session_sent(model::with_core(st, opened), now, conv, m, false);
        },
        EventState::SessionWrite { conv_id, bytes } => {
            if !model::write_blocked(s, conv_id, bytes.len()) {
                let m = wire::SessionMessageState::Data { bytes };
                lemma_session_sent(st, now, conv_id, m, false);
            }
        },
        EventState::SessionClose { conv_id, reason } => {
            let closing = SessionState {
                phase: SessionPhase::ClosingLocal,
                close_deadline_at: Some(model::later(now, s.params.close_deadline_ms as int)),
                pending_close: Some(reason),
                ..s.sessions[conv_id]
            };
            let next = model::with_core(st, model::put_session(s, conv_id, closing));
            assert(same_samples(s, next.core));
            lemma_close_announced(next, now, conv_id, false);
        },
        EventState::TransportPacketSendFailed { channel_id, bytes } => {
            lemma_send_refused(st, now, channel_id, bytes);
        },
        EventState::TransportPacketReceived { bytes, .. } => {
            let counted = EndpointState {
                metrics: CoreMetrics {
                    packets_received: machine::bumped(s.metrics.packets_received),
                    ..s.metrics
                },
                ..s
            };
            assert(same_samples(s, counted));
            lemma_packet_received(model::with_core(st, counted), now, bytes);
        },
    }
}

// ---------------------------------------------------------------------------
// Time
// ---------------------------------------------------------------------------

proof fn lemma_samples_expired(s: EndpointState, now: u64, ids: Seq<(u64, u64)>)
    requires
        spaced(s, now),
    ensures
        ({
            let t = model::samples_expired(s, now, ids);
            &&& spaced(t, now)
            &&& forall|id: (u64, u64)| #[trigger]
                t.outstanding.contains_key(id) ==> s.outstanding.contains_key(id)
                    && t.outstanding[id] == s.outstanding[id]
            &&& forall|id: (u64, u64)|
                ids.contains(id) && #[trigger] t.outstanding.contains_key(id) ==> now
                    < t.outstanding[id].deadline
        }),
    decreases ids.len(),
{
    reveal(model::samples_expired);
    if ids.len() > 0 {
        let sample = s.outstanding[ids[0]];
        let next = if now < sample.deadline {
            s
        } else {
            EndpointState {
                outstanding: s.outstanding.remove(ids[0]),
                planner: routing::feedback(s.planner, sample.route_plan, sample.sent_at, false),
                ..s
            }
        };
        if now >= sample.deadline {
            lemma_sample_removed(s, next, now, ids[0]);
        }
        let rest = ids.drop_first();
        lemma_samples_expired(next, now, rest);
        let t = model::samples_expired(next, now, rest);
        assert forall|id: (u64, u64)|
            ids.contains(id) && #[trigger] t.outstanding.contains_key(id) implies now
            < t.outstanding[id].deadline by {
            let i = choose|i: int| 0 <= i < ids.len() && ids[i] == id;
            assert(next.outstanding.contains_key(id));
            if i > 0 {
                assert(rest[i - 1] == id);
                assert(rest.contains(id));
            }
        }
    }
}

proof fn lemma_sessions_reset(st: Step, now: u64, seq_id: u64, convs: Seq<u64>)
    ensures
        same_samples(st.core, model::sessions_reset(st, now, seq_id, convs).core),
    decreases convs.len(),
{
    reveal_with_fuel(model::sessions_reset, 2);
    if convs.len() > 0 {
        let next = model::sessions_reset(st, now, seq_id, seq![convs[0]]);
        assert(seq![convs[0]].drop_first() =~= Seq::empty());
        lemma_sessions_reset(next, now, seq_id, convs.drop_first());
    }
}

proof fn lemma_senders_reset(st: Step, now: u64, ids: Seq<u64>)
    ensures
        same_samples(st.core, model::senders_reset(st, now, ids).core),
    decreases ids.len(),
{
    reveal(model::senders_reset);
    if ids.len() > 0 {
        let convs = ordered::ascending(st.core.sessions.dom());
        lemma_sessions_reset(st, now, ids[0], convs);
        lemma_senders_reset(
            model::sessions_reset(st, now, ids[0], convs),
            now,
            ids.drop_first(),
        );
    }
}

proof fn lemma_sessions_polled(st: Step, now: u64, convs: Seq<u64>)
    requires
        sampled(st.core, now, true),
        now < u64::MAX,
    ensures
        sampled(model::sessions_polled(st, now, convs).core, now, true),
    decreases convs.len(),
{
    reveal(model::sessions_polled);
    if convs.len() > 0 {
        reveal(model::session_polled);
        let conv = convs[0];
        lemma_close_announced(st, now, conv, true);
        let announced = model::close_announced(st, now, conv);
        let kept_session = announced.core.sessions[conv];
        let (kcp, packets) = session::polled(kept_session.kcp, now);
        let kept = model::with_core(
            announced,
            model::put_session(announced.core, conv, SessionState { kcp, ..kept_session }),
        );
        assert(same_samples(announced.core, kept.core));
        lemma_packets_sent(kept, now, packets, true);
        lemma_closed_finished(model::packets_sent(kept, now, packets), now, conv);
        lemma_sessions_polled(model::session_polled(st, now, conv), now, convs.drop_first());
    }
}

/// Polling keeps the samples spaced by the interval, and gives up those that are past their
/// deadline.
pub proof fn law_poll_gives_up_old_samples(st: Step, now: u64)
    requires
        spaced(st.core, now),
        st.core.outstanding.dom().finite(),
        now < u64::MAX,
    ensures
        spaced(model::polled(st, now).core, now),
        none_overdue(model::polled(st, now).core, now),
{
    let ids = ordered::ascending_pairs(st.core.outstanding.dom());
    ordered::lemma_ascending_pairs_exists(st.core.outstanding.dom());
    lemma_samples_expired(st.core, now, ids);
    let fed = model::samples_expired(st.core, now, ids);
    assert(none_overdue(fed, now)) by {
        assert forall|id: (u64, u64)| #[trigger] fed.outstanding.contains_key(id) implies now
            <= fed.outstanding[id].deadline by {
            assert(st.core.outstanding.contains_key(id));
            assert(st.core.outstanding.dom().contains(id));
            assert(ids.contains(id));
        }
    }
    reveal(model::senders_expired);
    let tick = machine::tick_at(fed.params.boot_time_ms, now);
    let expired = sequence::expiring(fed.filter, tick, model::SEQUENCE_SOFT_CAP as nat);
    let forgetful = EndpointState { filter: sequence::without(fed.filter, expired), ..fed };
    lemma_senders_reset(model::with_core(st, forgetful), now, expired);
    let reset = model::senders_expired(model::with_core(st, fed), now);
    assert(same_samples(fed, reset.core));
    let forgotten = model::with_core(
        reset,
        EndpointState {
            tombstones: model::tombstones_kept(reset.core.tombstones, now),
            ..reset.core
        },
    );
    let convs = ordered::ascending(forgotten.core.sessions.dom());
    lemma_sessions_polled(forgotten, now, convs);
    let run = model::sessions_polled(forgotten, now, convs);
    reveal(model::kept_alive);
    let sample = model::feedback_due(run.core, now);
    let m = wire::EndpointMessageState::KeepAlive {
        reply_depth: model::depth_of_sample(sample),
    };
    lemma_message_sent(run, now, m, sample, true);
}

} // verus!
