//! No packet of a peer is taken twice in the life of an endpoint.
use vstd::prelude::*;

use crate::endpoint::guarantees;
use crate::endpoint::model;
use crate::endpoint::model::{EndpointState, Step, SEQUENCE_SOFT_CAP};
use crate::endpoint::session;
use crate::machine;
use crate::machine::{CoreEventResult, EventState};
use crate::ordered;
use crate::packet;
use crate::sequence;
use crate::sequence::FilterEvent;
use crate::wire;
use crate::wire::EnvelopeStamp;

verus! {

/// What an endpoint is called for.
pub enum Turn {
    Event { elapsed_ms: u64, event: EventState },
    Poll { elapsed_ms: u64 },
}

pub open spec fn turn_time(turn: Turn) -> u64 {
    match turn {
        Turn::Event { elapsed_ms, .. } => elapsed_ms,
        Turn::Poll { elapsed_ms } => elapsed_ms,
    }
}

/// The endpoint after a turn.
pub open spec fn turned(st: Step, turn: Turn) -> Step {
    match turn {
        Turn::Event { elapsed_ms, event } => model::event_handled(st, elapsed_ms, event).0,
        Turn::Poll { elapsed_ms } => model::polled(st, elapsed_ms),
    }
}

/// The endpoint after a row of turns.
pub open spec fn history(st: Step, turns: Seq<Turn>) -> Step
    decreases turns.len(),
{
    if turns.len() == 0 {
        st
    } else {
        turned(history(st, turns.drop_last()), turns.last())
    }
}

/// The turns come one after the other, from `start` up to `end`.
pub open spec fn in_order(start: u64, turns: Seq<Turn>, end: u64) -> bool
    decreases turns.len(),
{
    if turns.len() == 0 {
        start <= end
    } else {
        turn_time(turns.last()) <= end && in_order(
            start,
            turns.drop_last(),
            turn_time(turns.last()),
        )
    }
}

/// The windows and the settings are the same.
spec fn same_windows(s: EndpointState, t: EndpointState) -> bool {
    s.filter == t.filter && s.params == t.params
}

proof fn lemma_envelope_sent(
    st: Step,
    elapsed_ms: u64,
    stamp: EnvelopeStamp,
    payload: Seq<u8>,
    sample: bool,
)
    ensures
        same_windows(
            st.core,
            model::envelope_sent(st, elapsed_ms, stamp, payload, sample).core,
        ),
{
    reveal(model::envelope_sent);
}

proof fn lemma_message_sent(
    st: Step,
    elapsed_ms: u64,
    m: wire::EndpointMessageState,
    sample: bool,
)
    ensures
        same_windows(st.core, model::message_sent(st, elapsed_ms, m, sample).core),
{
    reveal(model::message_sent);
    let stamp = model::next_stamp(st.core, elapsed_ms);
    lemma_envelope_sent(
        model::with_core(st, model::numbered(st.core)),
        elapsed_ms,
        stamp,
        model::sealed_message(st.core.params.message_key, stamp, m),
        sample,
    );
}

proof fn lemma_packets_sent(st: Step, elapsed_ms: u64, packets: Seq<Seq<u8>>)
    ensures
        same_windows(st.core, model::packets_sent(st, elapsed_ms, packets).core),
    decreases packets.len(),
{
    reveal(model::packets_sent);
    if packets.len() > 0 {
        let sample = model::feedback_due(st.core, elapsed_ms);
        let m = wire::EndpointMessageState::KcpPacket {
            reply_depth: model::depth_of_sample(sample),
            packet: packets[0],
        };
        lemma_message_sent(st, elapsed_ms, m, sample);
        lemma_packets_sent(
            model::message_sent(st, elapsed_ms, m, sample),
            elapsed_ms,
            packets.drop_first(),
        );
    }
}

proof fn lemma_closed_finished(st: Step, elapsed_ms: u64, conv: u64)
    ensures
        same_windows(st.core, model::closed_finished(st, elapsed_ms, conv).core),
{
    reveal(model::closed_finished);
}

proof fn lemma_session_sent(
    st: Step,
    elapsed_ms: u64,
    conv: u64,
    m: wire::SessionMessageState,
)
    ensures
        same_windows(st.core, model::session_sent(st, elapsed_ms, conv, m).core),
{
    reveal(model::session_sent);
    let session = st.core.sessions[conv];
    let (kcp, packets) = session::message_sent(session.kcp, elapsed_ms, m);
    let kept = model::with_core(
        st,
        model::put_session(st.core, conv, session::SessionState { kcp, ..session }),
    );
    lemma_packets_sent(kept, elapsed_ms, packets);
    lemma_closed_finished(model::packets_sent(kept, elapsed_ms, packets), elapsed_ms, conv);
}

proof fn lemma_close_announced(st: Step, elapsed_ms: u64, conv: u64)
    ensures
        same_windows(st.core, model::close_announced(st, elapsed_ms, conv).core),
{
    reveal(model::close_announced);
    let session = st.core.sessions[conv];
    lemma_session_sent(
        model::with_core(
            st,
            model::put_session(
                st.core,
                conv,
                session::SessionState { close_queued: true, ..session },
            ),
        ),
        elapsed_ms,
        conv,
        wire::SessionMessageState::Close { reason: session.pending_close->0 },
    );
}

proof fn lemma_messages_received(
    st: Step,
    elapsed_ms: u64,
    conv: u64,
    messages: Seq<Seq<u8>>,
)
    ensures
        same_windows(st.core, model::messages_received(st, elapsed_ms, conv, messages).core),
    decreases messages.len(),
{
    reveal(model::messages_received);
    reveal(model::session_received);
    if messages.len() > 0 {
        lemma_messages_received(
            model::session_received(st, elapsed_ms, conv, wire::decode_session(messages[0])->0),
            elapsed_ms,
            conv,
            messages.drop_first(),
        );
    }
}

proof fn lemma_kcp_received(st: Step, elapsed_ms: u64, peer_seq: u64, bytes: Seq<u8>)
    ensures
        same_windows(st.core, model::kcp_received(st, elapsed_ms, peer_seq, bytes).core),
{
    reveal(model::kcp_received);
    let s = st.core;
    let conv = crate::kcp::model::conv_of(bytes);
    if !s.tombstones.contains_key(conv) && !model::foreign(s, peer_seq, conv) {
        let session = model::addressed_session(s, elapsed_ms, peer_seq, conv);
        let taken = session::packet_taken(session.kcp, elapsed_ms, bytes);
        let kept = model::with_core(
            st,
            model::put_session(s, conv, session::SessionState { kcp: taken.kcp, ..session }),
        );
        let answered = model::packets_sent(kept, elapsed_ms, taken.packets);
        let handled = model::messages_received(answered, elapsed_ms, conv, taken.messages);
        lemma_packets_sent(kept, elapsed_ms, taken.packets);
        lemma_messages_received(answered, elapsed_ms, conv, taken.messages);
        lemma_close_announced(handled, elapsed_ms, conv);
        lemma_closed_finished(
            model::close_announced(handled, elapsed_ms, conv),
            elapsed_ms,
            conv,
        );
    }
}

proof fn lemma_message_handled(
    st: Step,
    elapsed_ms: u64,
    stamp: EnvelopeStamp,
    m: wire::EndpointMessageState,
)
    ensures
        same_windows(st.core, model::message_handled(st, elapsed_ms, stamp, m).core),
{
    reveal(model::message_handled);
    if let wire::EndpointMessageState::KcpPacket { packet, .. } = m {
        lemma_kcp_received(st, elapsed_ms, stamp.seq_id, packet);
    }
}

proof fn lemma_replied(st: Step, elapsed_ms: u64, stamp: EnvelopeStamp, reply_depth: u8)
    ensures
        same_windows(st.core, model::replied(st, elapsed_ms, stamp, reply_depth).core),
{
    reveal(model::replied);
    let m = model::reply_to(st.core, elapsed_ms, stamp, reply_depth);
    lemma_message_sent(st, elapsed_ms, m, wire::reply_depth_of(m) > 0);
}

proof fn lemma_send_refused(st: Step, elapsed_ms: u64, channel_id: u16, bytes: Seq<u8>)
    ensures
        same_windows(st.core, model::send_refused(st, elapsed_ms, channel_id, bytes).core),
{
    reveal(model::send_refused);
    reveal(model::envelope_sent);
}

proof fn lemma_samples_expired(s: EndpointState, elapsed_ms: u64, ids: Seq<(u64, u64)>)
    ensures
        same_windows(s, model::samples_expired(s, elapsed_ms, ids)),
    decreases ids.len(),
{
    reveal(model::samples_expired);
    if ids.len() > 0 {
        let sample = s.outstanding[ids[0]];
        let next = if elapsed_ms < sample.deadline {
            s
        } else {
            EndpointState {
                outstanding: s.outstanding.remove(ids[0]),
                planner: crate::routing::feedback(
                    s.planner,
                    sample.route_plan,
                    sample.sent_at,
                    false,
                ),
                ..s
            }
        };
        lemma_samples_expired(next, elapsed_ms, ids.drop_first());
    }
}

proof fn lemma_sessions_reset(st: Step, elapsed_ms: u64, seq_id: u64, convs: Seq<u64>)
    ensures
        same_windows(st.core, model::sessions_reset(st, elapsed_ms, seq_id, convs).core),
    decreases convs.len(),
{
    reveal(model::sessions_reset);
    if convs.len() > 0 {
        let one = model::sessions_reset(st, elapsed_ms, seq_id, seq![convs[0]]);
        reveal_with_fuel(model::sessions_reset, 2);
        assert(seq![convs[0]].drop_first() =~= Seq::empty());
        lemma_sessions_reset(one, elapsed_ms, seq_id, convs.drop_first());
    }
}

proof fn lemma_senders_reset(st: Step, elapsed_ms: u64, ids: Seq<u64>)
    ensures
        same_windows(st.core, model::senders_reset(st, elapsed_ms, ids).core),
    decreases ids.len(),
{
    reveal(model::senders_reset);
    if ids.len() > 0 {
        let convs = ordered::ascending(st.core.sessions.dom());
        lemma_sessions_reset(st, elapsed_ms, ids[0], convs);
        lemma_senders_reset(
            model::sessions_reset(st, elapsed_ms, ids[0], convs),
            elapsed_ms,
            ids.drop_first(),
        );
    }
}

proof fn lemma_sessions_polled(st: Step, elapsed_ms: u64, convs: Seq<u64>)
    ensures
        same_windows(st.core, model::sessions_polled(st, elapsed_ms, convs).core),
    decreases convs.len(),
{
    reveal(model::sessions_polled);
    if convs.len() > 0 {
        lemma_session_polled(st, elapsed_ms, convs[0]);
        lemma_sessions_polled(
            model::session_polled(st, elapsed_ms, convs[0]),
            elapsed_ms,
            convs.drop_first(),
        );
    }
}

proof fn lemma_session_polled(st: Step, elapsed_ms: u64, conv: u64)
    ensures
        same_windows(st.core, model::session_polled(st, elapsed_ms, conv).core),
{
    reveal(model::session_polled);
    let announced = model::close_announced(st, elapsed_ms, conv);
    let session = announced.core.sessions[conv];
    let (kcp, packets) = session::polled(session.kcp, elapsed_ms);
    let kept = model::with_core(
        announced,
        model::put_session(announced.core, conv, session::SessionState { kcp, ..session }),
    );
    lemma_close_announced(st, elapsed_ms, conv);
    lemma_packets_sent(kept, elapsed_ms, packets);
    lemma_closed_finished(model::packets_sent(kept, elapsed_ms, packets), elapsed_ms, conv);
}

proof fn lemma_kept_alive(st: Step, elapsed_ms: u64)
    ensures
        same_windows(st.core, model::kept_alive(st, elapsed_ms).core),
{
    reveal(model::kept_alive);
    let sample = model::feedback_due(st.core, elapsed_ms);
    lemma_message_sent(
        st,
        elapsed_ms,
        wire::EndpointMessageState::KeepAlive { reply_depth: model::depth_of_sample(sample) },
        sample,
    );
}

/// The time of an endpoint in ticks.
spec fn ticks(s: EndpointState, elapsed_ms: u64) -> int {
    machine::global_time(s.params.boot_time_ms, elapsed_ms) as int / 1024
}

/// What a turn does to the windows: a packet that is authentic is checked, and polling gives
/// up windows.
spec fn filter_events(s: EndpointState, turn: Turn) -> Seq<FilterEvent> {
    match turn {
        Turn::Event {
            elapsed_ms,
            event: EventState::TransportPacketReceived { bytes, .. },
        } => if guarantees::authentic(s, bytes) {
            let stamp = guarantees::stamp_in(s, bytes);
            seq![
                FilterEvent::Checked {
                    time: ticks(s, elapsed_ms),
                    packet_time: stamp.time,
                    seq_id: stamp.seq_id,
                    seq_no: stamp.seq_no,
                },
            ]
        } else {
            Seq::empty()
        },
        Turn::Event { .. } => Seq::empty(),
        Turn::Poll { elapsed_ms } => seq![
            FilterEvent::Evicted { time: ticks(s, elapsed_ms), cap: SEQUENCE_SOFT_CAP as nat },
        ],
    }
}

spec fn filter_row(st: Step, turns: Seq<Turn>) -> Seq<FilterEvent>
    decreases turns.len(),
{
    if turns.len() == 0 {
        Seq::empty()
    } else {
        filter_row(st, turns.drop_last()) + filter_events(
            history(st, turns.drop_last()).core,
            turns.last(),
        )
    }
}

proof fn lemma_received_windows(st: Step, elapsed_ms: u64, channel_id: u16, bytes: Seq<u8>)
    ensures
        ({
            let event = EventState::TransportPacketReceived { channel_id, bytes };
            let t = model::event_handled(st, elapsed_ms, event).0.core;
            &&& t.params == st.core.params
            &&& t.filter == if guarantees::authentic(st.core, bytes) {
                model::admitted(st.core, elapsed_ms, guarantees::stamp_in(st.core, bytes)).0.filter
            } else {
                st.core.filter
            }
        }),
{
    reveal(model::packet_received);
    if guarantees::authentic(st.core, bytes) {
        let s = EndpointState {
            metrics: machine::CoreMetrics {
                packets_received: machine::bumped(st.core.metrics.packets_received),
                ..st.core.metrics
            },
            ..st.core
        };
        let e = packet::decode_packet(s.params.envelope_key, bytes)->Ok_0;
        let stamp = wire::stamp_of(e);
        let plain = model::opened_message(s.params.message_key, stamp, e.payload)->0;
        let m = wire::decode_endpoint(plain)->0;
        let checked = model::with_core(st, model::admitted(s, elapsed_ms, stamp).0);
        lemma_message_handled(checked, elapsed_ms, stamp, m);
        lemma_replied(
            model::message_handled(checked, elapsed_ms, stamp, m),
            elapsed_ms,
            stamp,
            wire::reply_depth_of(m),
        );
    }
}

proof fn lemma_event_windows(st: Step, elapsed_ms: u64, event: EventState)
    requires
        !(event is TransportPacketReceived),
    ensures
        same_windows(st.core, model::event_handled(st, elapsed_ms, event).0.core),
{
    let s = st.core;
    match event {
        EventState::SessionOpen => {
            let conv = s.next_conv_id;
            let opened = model::put_session(
                EndpointState { next_conv_id: conv.wrapping_add(1), ..s },
                conv,
                session::new_session(conv, s.params.kcp, session::SessionPhase::Open),
            );
            lemma_session_sent(
                model::with_core(st, opened),
                elapsed_ms,
                conv,
                wire::SessionMessageState::Open,
            );
        },
        EventState::SessionWrite { conv_id, bytes } => {
            lemma_session_sent(
                st,
                elapsed_ms,
                conv_id,
                wire::SessionMessageState::Data { bytes },
            );
        },
        EventState::SessionClose { conv_id, reason } => {
            let closing = session::SessionState {
                phase: session::SessionPhase::ClosingLocal,
                close_deadline_at: Some(
                    model::later(elapsed_ms, s.params.close_deadline_ms as int),
                ),
                pending_close: Some(reason),
                ..s.sessions[conv_id]
            };
            lemma_close_announced(
                model::with_core(st, model::put_session(s, conv_id, closing)),
                elapsed_ms,
                conv_id,
            );
        },
        EventState::TransportPacketSendFailed { channel_id, bytes } => {
            lemma_send_refused(st, elapsed_ms, channel_id, bytes);
        },
        EventState::TransportPacketReceived { .. } => {},
    }
}

pub proof fn lemma_poll_windows(st: Step, elapsed_ms: u64)
    ensures
        ({
            let t = model::polled(st, elapsed_ms).core;
            let now = machine::tick_at(st.core.params.boot_time_ms, elapsed_ms);
            &&& t.params == st.core.params
            &&& t.filter == sequence::without(
                st.core.filter,
                sequence::expiring(st.core.filter, now, SEQUENCE_SOFT_CAP as nat),
            )
        }),
{
    let ids = ordered::ascending_pairs(st.core.outstanding.dom());
    let fed = model::samples_expired(st.core, elapsed_ms, ids);
    lemma_samples_expired(st.core, elapsed_ms, ids);
    let now = machine::tick_at(fed.params.boot_time_ms, elapsed_ms);
    let gone = sequence::expiring(fed.filter, now, SEQUENCE_SOFT_CAP as nat);
    let left = model::with_core(
        model::with_core(st, fed),
        EndpointState { filter: sequence::without(fed.filter, gone), ..fed },
    );
    reveal(model::senders_expired);
    lemma_senders_reset(left, elapsed_ms, gone);
    let reset = model::senders_reset(left, elapsed_ms, gone);
    let forgotten = model::with_core(
        reset,
        EndpointState {
            tombstones: model::tombstones_kept(reset.core.tombstones, elapsed_ms),
            ..reset.core
        },
    );
    let convs = ordered::ascending(forgotten.core.sessions.dom());
    lemma_sessions_polled(forgotten, elapsed_ms, convs);
    lemma_kept_alive(model::sessions_polled(forgotten, elapsed_ms, convs), elapsed_ms);
}

proof fn lemma_turn_windows(st: Step, turn: Turn)
    ensures
        ({
            let t = turned(st, turn).core;
            &&& t.params == st.core.params
            &&& t.filter == sequence::filter_history(
                st.core.filter,
                filter_events(st.core, turn),
            )
        }),
{
    let row = filter_events(st.core, turn);
    reveal_with_fuel(sequence::filter_history, 2);
    if row.len() == 1 {
        assert(row.drop_last() =~= Seq::empty());
    }
    match turn {
        Turn::Event { elapsed_ms, event } => {
            if let EventState::TransportPacketReceived { channel_id, bytes } = event {
                lemma_received_windows(st, elapsed_ms, channel_id, bytes);
            } else {
                lemma_event_windows(st, elapsed_ms, event);
            }
        },
        Turn::Poll { elapsed_ms } => {
            lemma_poll_windows(st, elapsed_ms);
        },
    }
}

proof fn lemma_row_windows(st: Step, turns: Seq<Turn>)
    ensures
        ({
            let t = history(st, turns).core;
            &&& t.params == st.core.params
            &&& t.filter == sequence::filter_history(st.core.filter, filter_row(st, turns))
        }),
    decreases turns.len(),
{
    if turns.len() > 0 {
        let before = history(st, turns.drop_last());
        lemma_row_windows(st, turns.drop_last());
        lemma_turn_windows(before, turns.last());
        sequence::lemma_filter_append(
            st.core.filter,
            filter_row(st, turns.drop_last()),
            filter_events(before.core, turns.last()),
        );
    }
}

proof fn lemma_row_time(st: Step, start: u64, turns: Seq<Turn>, end: u64)
    requires
        in_order(start, turns, end),
    ensures
        start <= end,
        sequence::in_time(
            ticks(st.core, start),
            filter_row(st, turns),
            ticks(st.core, end),
        ),
    decreases turns.len(),
{
    if turns.len() > 0 {
        let turn = turns.last();
        let before = history(st, turns.drop_last());
        lemma_row_time(st, start, turns.drop_last(), turn_time(turn));
        lemma_row_windows(st, turns.drop_last());
        let row = filter_events(before.core, turn);
        reveal_with_fuel(sequence::in_time, 2);
        if row.len() == 1 {
            assert(row.drop_last() =~= Seq::empty());
        }
        sequence::lemma_time_append(
            ticks(st.core, start),
            filter_row(st, turns.drop_last()),
            row,
            ticks(st.core, turn_time(turn)),
            ticks(st.core, end),
        );
    }
}

/// An endpoint takes no packet twice in its life, whatever it is called for before and in
/// between and whatever windows it gives up. A copy, which is any packet with the same tick,
/// sender and number, leaves no trace but a count in the metrics: no state and no action. The
/// life of an endpoint is a good year: half the circle of ticks, but for those that a packet
/// may be early and late.
pub proof fn law_endpoint_never_takes_again(
    new: Step,
    earlier: Seq<Turn>,
    start: u64,
    channel_id: u16,
    bytes: Seq<u8>,
    turns: Seq<Turn>,
    end: u64,
    other_channel: u16,
    copy: Seq<u8>,
)
    requires
        new.core.filter == Map::<u64, sequence::WindowState>::empty(),
        in_order(0, earlier, start),
        in_order(start, turns, end),
        machine::global_time(new.core.params.boot_time_ms, end) as int / 1024
            - new.core.params.boot_time_ms as int / 1024 < 0x200_0000 - sequence::MAX_PAST_TICKS
            - sequence::MAX_FUTURE_TICKS,
        guarantees::authentic(new.core, bytes),
        model::admitted(
            history(new, earlier).core,
            start,
            guarantees::stamp_in(new.core, bytes),
        ).1,
        guarantees::stamp_in(new.core, copy) == guarantees::stamp_in(new.core, bytes),
    ensures
        ({
            let received = EventState::TransportPacketReceived { channel_id, bytes };
            let taken = turned(
                history(new, earlier),
                Turn::Event { elapsed_ms: start, event: received },
            );
            let later = history(taken, turns);
            let (after, result) = model::event_handled(
                later,
                end,
                EventState::TransportPacketReceived { channel_id: other_channel, bytes: copy },
            );
            &&& result == CoreEventResult::Handled
            &&& after.actions == later.actions
            &&& after.core == (EndpointState { metrics: after.core.metrics, ..later.core })
        }),
{
    let received = EventState::TransportPacketReceived { channel_id, bytes };
    let st = history(new, earlier);
    let turn = Turn::Event { elapsed_ms: start, event: received };
    let taken = turned(st, turn);
    let later = history(taken, turns);
    let stamp = guarantees::stamp_in(new.core, bytes);
    lemma_row_windows(new, earlier);
    lemma_row_time(new, 0, earlier, start);
    lemma_turn_windows(st, turn);
    lemma_row_windows(taken, turns);
    lemma_row_time(taken, start, turns, end);
    let row = filter_events(st.core, turn);
    reveal_with_fuel(sequence::filter_history, 2);
    assert(row.drop_last() =~= Seq::empty());
    sequence::law_taken_once(
        ticks(new.core, 0),
        filter_row(new, earlier),
        ticks(new.core, start),
        stamp.time,
        stamp.seq_id,
        stamp.seq_no,
        filter_row(taken, turns),
        ticks(new.core, end),
    );
    assert(!model::admitted(later.core, end, stamp).1);
    guarantees::law_refused_packet_leaves_no_trace(later, end, other_channel, copy);
}

} // verus!
