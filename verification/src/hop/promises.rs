//! What an endpoint of a hop by hop network sends, and what it tells its shell.
use vstd::prelude::*;

use crate::endpoint::guarantees;
use crate::endpoint::session;
use crate::hop::endpoint::{
    ensured, envelope_received, event_done, failure_text, frame_sent, frames_handled, frames_in,
    lemma_sent_keys, segment_received, segments_sent, session_due, session_params,
    sessions_polled, with_session, Deed, HopState, Metric, Nonces,
};
use crate::hop::machine::{
    message_opened, next_hop, usable, ChannelState, ConvId, CoreError, CoreEvent,
    CoreStructuredEvent,
};
use crate::hop::packet;
use crate::hop::wire;
use crate::hop::wire::{ChannelId, EnvelopeState, FrameState, ReasonState, WireError};
use crate::kcp;
use crate::kcp::delivery;
use crate::kcp::model::KcpState;
use crate::octets;
use crate::random;
use crate::text;

verus! {

// ---------------------------------------------------------------------------
// Segments
// ---------------------------------------------------------------------------

/// The stream of nonces after `n` of them.
pub open spec fn drawn(r: random::RandomState, n: nat) -> random::RandomState
    decreases n,
{
    if n == 0 {
        r
    } else {
        random::skip_bytes(drawn(r, (n - 1) as nat), 16)
    }
}

/// What sends the segments: each goes out on the first channel of the plan, with the rest of
/// the plan, under the next nonce of each stream.
pub open spec fn sendings(s: HopState, segments: Seq<Seq<u8>>) -> Seq<Deed> {
    Seq::new(
        segments.len(),
        |i: int|
            Deed::Send {
                channel_id: s.plan->0[0],
                route_plan: s.plan->0.drop_first(),
                nonces: Nonces {
                    envelope: random::next_bytes(drawn(s.envelope_random, i as nat), 16),
                    message: random::next_bytes(drawn(s.message_random, i as nat), 16),
                },
                segment: segments[i],
            },
    )
}

/// There is a route, and the segments fit the packets.
pub open spec fn can_send(s: HopState, segments: Seq<Seq<u8>>) -> bool {
    &&& s.plan is Some
    &&& 1 <= s.plan->0.len() <= 65
    &&& forall|i: int| 0 <= i < segments.len() ==> (#[trigger] segments[i]).len() <= 65536 - 32
}

proof fn lemma_drawn_first(r: random::RandomState, n: nat)
    ensures
        drawn(random::skip_bytes(r, 16), n) == drawn(r, n + 1),
    decreases n,
{
    reveal_with_fuel(drawn, 2);
    if n > 0 {
        lemma_drawn_first(r, (n - 1) as nat);
    }
}

/// Where there is a route and they fit, all segments go out, in order, and nothing else does.
/// Without a route none does.
pub proof fn law_segments_go_out(s: HopState, segments: Seq<Seq<u8>>)
    ensures
        ({
            let done = segments_sent(s, segments);
            &&& can_send(s, segments) ==> {
                &&& done.result is Ok
                &&& done.deeds == sendings(s, segments)
                &&& done.state == (HopState {
                    envelope_random: drawn(s.envelope_random, segments.len()),
                    message_random: drawn(s.message_random, segments.len()),
                    ..s
                })
            }
            &&& segments.len() > 0 && (s.plan is None || s.plan->0.len() == 0) ==> {
                &&& done.result == Err::<(), CoreError>(CoreError::NoRoute)
                &&& done.deeds.len() == 0
            }
            &&& done.state.sessions == s.sessions
        }),
    decreases segments.len(),
{
    lemma_sent_keys(s, segments);
    if segments.len() > 0 && can_send(s, segments) {
        let first = crate::hop::endpoint::segment_sent(s, segments[0]);
        let rest = segments.drop_first();
        assert forall|i: int| 0 <= i < rest.len() implies (#[trigger] rest[i]).len() <= 65536
            - 32 by {
            assert(rest[i] == segments[i + 1]);
        }
        assert(segments[0].len() <= 65536 - 32);
        law_segments_go_out(first.state, rest);
        lemma_drawn_first(s.envelope_random, rest.len());
        lemma_drawn_first(s.message_random, rest.len());
        assert(segments_sent(s, segments).deeds =~= sendings(s, segments)) by {
            assert forall|i: int| 0 <= i < segments.len() implies segments_sent(
                s,
                segments,
            ).deeds[i] == sendings(s, segments)[i] by {
                if i > 0 {
                    lemma_drawn_first(s.envelope_random, (i - 1) as nat);
                    lemma_drawn_first(s.message_random, (i - 1) as nat);
                    assert(sendings(first.state, rest)[i - 1] == sendings(s, segments)[i]);
                }
            }
        }
    } else if segments.len() == 0 {
        assert(segments_sent(s, segments).deeds =~= sendings(s, segments));
    }
}

// ---------------------------------------------------------------------------
// Frames
// ---------------------------------------------------------------------------

/// The conversation of a session, as it is or new.
pub open spec fn conversation(s: HopState, conv_id: ConvId) -> KcpState {
    if s.sessions.contains_key(conv_id) {
        s.sessions[conv_id]
    } else {
        kcp::model::init(conv_id, s.params)
    }
}

/// A frame that its session takes is the next message of it, byte for byte. The segments that
/// it makes due go out, where there is a route for them.
pub proof fn law_frame_is_the_next_message(
    s: HopState,
    now_ms: u64,
    conv_id: ConvId,
    frame: FrameState,
    stream: spec_fn(int) -> (u8, Seq<u8>),
    messages: spec_fn(int) -> Seq<u8>,
    una: int,
    n: int,
) -> (segments: Seq<Seq<u8>>)
    requires
        ({
            let k = conversation(s, conv_id);
            &&& kcp::model::well_formed(k)
            &&& k.output.len() == 0
            &&& delivery::carries(stream, messages, k.mss as int)
            &&& delivery::sent_up_to(k, stream, messages, una, n)
            &&& wire::encode_frame(frame) is Ok
            &&& messages(n) == wire::frame_bytes(frame)
            &&& kcp::model::send(k, messages(n)).1 is Ok
        }),
    ensures
        ({
            let done = frame_sent(s, now_ms, conv_id, frame);
            &&& done.state.sessions.contains_key(conv_id)
            &&& delivery::sent_up_to(
                done.state.sessions[conv_id],
                stream,
                messages,
                una,
                n + 1,
            )
            &&& guarantees::packets_genuine(segments, stream, una)
            &&& segments == session::flushed_now(
                kcp::model::send(conversation(s, conv_id), messages(n)).0,
                now_ms,
            ).1
            &&& can_send(s, segments) ==> done.result is Ok && done.deeds == sendings(s, segments)
            &&& segments.len() > 0 && s.plan is None ==> done.result == Err::<(), CoreError>(
                CoreError::NoRoute,
            ) && done.deeds.len() == 0
        }),
{
    reveal(frame_sent);
    let k = conversation(s, conv_id);
    let ready = ensured(s, conv_id);
    assert(ready.sessions[conv_id] == k);
    let bytes = wire::encode_frame(frame)->Ok_0;
    assert(bytes == messages(n));
    let queued = kcp::model::send(k, bytes).0;
    delivery::law_send_continues_the_stream(k, stream, messages, una, n);
    kcp::laws::lemma_send_well_formed(k, bytes);
    guarantees::lemma_flushed_now_sends(queued, now_ms, stream, messages, una, n + 1, una);
    let (flushed, segments) = session::flushed_now(queued, now_ms);
    let kept = with_session(ready, conv_id, flushed);
    law_segments_go_out(kept, segments);
    assert(sendings(kept, segments) =~= sendings(s, segments));
    segments
}

/// The session that an event writes to, and the frame that it sends there.
pub open spec fn frame_of(s: HopState, event: CoreEvent) -> Option<(ConvId, FrameState)> {
    match event {
        CoreEvent::IngressSessionRequested { target, metadata } => Some(
            (
                s.next_conv_id,
                FrameState::OpenConnection {
                    host: text::utf8(target.host@),
                    port: target.port,
                    metadata: metadata@,
                },
            ),
        ),
        CoreEvent::ExitConnectionOpenFailed { conv_id, reason } => Some(
            (
                conv_id,
                FrameState::ResetConnection {
                    reason: ReasonState::Error { message: text::utf8(failure_text(reason)) },
                },
            ),
        ),
        CoreEvent::SessionBytes { conv_id, bytes } => Some(
            (conv_id, FrameState::ConnectionBytes { bytes: bytes@ }),
        ),
        CoreEvent::SessionClosed { conv_id, reason } => Some(
            (conv_id, FrameState::CloseConnection { reason: reason@ }),
        ),
        _ => None,
    }
}

/// What the shell asks of a session reaches the other endpoint as a frame: a request opens a
/// session under the next id and asks for the target there, bytes are carried as they are, a
/// close gives its reason, and a connection that could not be opened is reset with the reason
/// in words. The frame is the next message of the session. The shell is told of a session
/// that it has opened or closed.
pub proof fn law_events_send_frames(
    s: HopState,
    now_ms: u64,
    event: CoreEvent,
    stream: spec_fn(int) -> (u8, Seq<u8>),
    messages: spec_fn(int) -> Seq<u8>,
    una: int,
    n: int,
) -> (segments: Seq<Seq<u8>>)
    requires
        frame_of(s, event) is Some,
        ({
            let (conv_id, frame) = frame_of(s, event)->0;
            let k = conversation(s, conv_id);
            &&& kcp::model::well_formed(k)
            &&& k.output.len() == 0
            &&& delivery::carries(stream, messages, k.mss as int)
            &&& delivery::sent_up_to(k, stream, messages, una, n)
            &&& wire::encode_frame(frame) is Ok
            &&& messages(n) == wire::frame_bytes(frame)
            &&& kcp::model::send(k, messages(n)).1 is Ok
        }),
    ensures
        ({
            let (conv_id, frame) = frame_of(s, event)->0;
            let done = event_done(s, now_ms, event, true);
            let before = match event {
                CoreEvent::IngressSessionRequested { .. } => seq![
                    Deed::SessionCreated { conv_id },
                    Deed::Count(Metric::IngressSessionCreated { conv_id }),
                    Deed::Report(CoreStructuredEvent::IngressSessionCreated { conv_id }),
                ],
                _ => Seq::empty(),
            };
            let behind = match event {
                CoreEvent::SessionClosed { .. } => seq![
                    Deed::Count(Metric::SessionClosed { conv_id }),
                    Deed::Report(CoreStructuredEvent::SessionClosed { conv_id }),
                ],
                _ => Seq::empty(),
            };
            &&& segments == session::flushed_now(
                kcp::model::send(conversation(s, conv_id), messages(n)).0,
                now_ms,
            ).1
            &&& can_send(s, segments) ==> {
                &&& done.result is Ok
                &&& done.deeds == before + sendings(s, segments) + behind
            }
            &&& !(event is SessionClosed) ==> {
                &&& done.state.sessions.contains_key(conv_id)
                &&& delivery::sent_up_to(
                    done.state.sessions[conv_id],
                    stream,
                    messages,
                    una,
                    n + 1,
                )
            }
            &&& event is SessionClosed && can_send(s, segments)
                ==> !done.state.sessions.contains_key(conv_id)
            &&& done.state.next_conv_id == if event is IngressSessionRequested {
                (s.next_conv_id + 1) % 0x1_0000_0000_0000_0000
            } else {
                s.next_conv_id as int
            }
            &&& done.state.channels == s.channels
            &&& done.state.plan == s.plan
        }),
{
    let (conv_id, frame) = frame_of(s, event)->0;
    match event {
        CoreEvent::IngressSessionRequested { .. } => {
            let next = HopState { next_conv_id: conv_id.wrapping_add(1), ..s };
            let created = ensured(next, conv_id);
            assert(conversation(created, conv_id) == conversation(s, conv_id));
            let segments = law_frame_is_the_next_message(
                created,
                now_ms,
                conv_id,
                frame,
                stream,
                messages,
                una,
                n,
            );
            lemma_frame_frame(created, now_ms, conv_id, frame);
            assert(sendings(created, segments) =~= sendings(s, segments));
            let done = event_done(s, now_ms, event, true);
            let told = seq![
                Deed::SessionCreated { conv_id },
                Deed::Count(Metric::IngressSessionCreated { conv_id }),
                Deed::Report(CoreStructuredEvent::IngressSessionCreated { conv_id }),
            ];
            if can_send(s, segments) {
                assert(can_send(created, segments));
                assert(done.deeds =~= told + sendings(s, segments) + Seq::empty());
            }
            segments
        },
        _ => {
            let segments = law_frame_is_the_next_message(
                s,
                now_ms,
                conv_id,
                frame,
                stream,
                messages,
                una,
                n,
            );
            lemma_frame_frame(s, now_ms, conv_id, frame);
            let done = event_done(s, now_ms, event, true);
            if can_send(s, segments) {
                let behind = match event {
                    CoreEvent::SessionClosed { .. } => seq![
                        Deed::Count(Metric::SessionClosed { conv_id }),
                        Deed::Report(CoreStructuredEvent::SessionClosed { conv_id }),
                    ],
                    _ => Seq::empty(),
                };
                assert(done.deeds =~= Seq::<Deed>::empty() + sendings(s, segments) + behind);
            }
            segments
        },
    }
}

proof fn lemma_frame_frame(s: HopState, now_ms: u64, conv_id: ConvId, frame: FrameState)
    ensures
        ({
            let t = frame_sent(s, now_ms, conv_id, frame).state;
            &&& t.next_conv_id == s.next_conv_id
            &&& t.channels == s.channels
            &&& t.plan == s.plan
        }),
{
    reveal(frame_sent);
    let ready = ensured(s, conv_id);
    if let Ok(bytes) = wire::encode_frame(frame) {
        let queued = kcp::model::send(ready.sessions[conv_id], bytes).0;
        let (flushed, segments) = session::flushed_now(queued, now_ms);
        lemma_sent_keys(with_session(ready, conv_id, flushed), segments);
    }
}

/// What the shell is told about a frame of the other endpoint.
pub open spec fn told_of(conv_id: ConvId, frame: FrameState) -> Seq<Deed> {
    match frame {
        FrameState::OpenConnection { host, port, metadata } => seq![
            Deed::OpenExit { conv_id, host, port, metadata },
        ],
        FrameState::ConnectionBytes { bytes } => seq![Deed::Write { conv_id, bytes }],
        FrameState::CloseConnection { reason } => seq![
            Deed::Close { conv_id, reason },
            Deed::Count(Metric::SessionClosed { conv_id }),
            Deed::Report(CoreStructuredEvent::SessionClosed { conv_id }),
        ],
        FrameState::ResetConnection { reason } => seq![
            Deed::Close { conv_id, reason },
            Deed::Count(Metric::SessionClosed { conv_id }),
            Deed::Report(CoreStructuredEvent::SessionClosed { conv_id }),
        ],
        FrameState::KeepAlive => Seq::empty(),
    }
}

/// Each frame of the other endpoint is told to the shell behind those before it: a request
/// for a connection, bytes to write, and the end of the session, which is gone then.
pub proof fn law_frames_are_told_in_order(
    s: HopState,
    conv_id: ConvId,
    frames: Seq<FrameState>,
    last: FrameState,
)
    ensures
        ({
            let (before, told) = frames_handled(s, conv_id, frames);
            let (end, all) = frames_handled(s, conv_id, frames.push(last));
            &&& all == told + told_of(conv_id, last)
            &&& end.sessions == if last is CloseConnection || last is ResetConnection {
                before.sessions.remove(conv_id)
            } else {
                before.sessions
            }
            &&& end == (HopState { sessions: end.sessions, ..before })
        }),
    decreases frames.len(),
{
    reveal_with_fuel(frames_handled, 3);
    let all = frames.push(last);
    if frames.len() > 0 {
        assert(all[0] == frames[0]);
        assert(all.drop_first() =~= frames.drop_first().push(last));
        let (next, first) = crate::hop::endpoint::frame_handled(s, conv_id, frames[0]);
        law_frames_are_told_in_order(next, conv_id, frames.drop_first(), last);
        let told = frames_handled(s, conv_id, frames).1;
        assert(frames_handled(s, conv_id, all).1 =~= told + told_of(conv_id, last));
    } else {
        assert(all.drop_first() =~= frames);
        assert(frames_handled(s, conv_id, all).1 =~= Seq::<Deed>::empty() + told_of(
            conv_id,
            last,
        ));
    }
}

/// The frames that a conversation has received are its messages, one after the other, where
/// all of them are well formed.
pub proof fn law_frames_are_the_messages(k: KcpState)
    requires
        forall|i: int|
            0 <= i < session::drained(k).1.len() ==> wire::decode_frame(
                #[trigger] session::drained(k).1[i],
            ) is Ok,
    ensures
        ({
            let (end, messages) = session::drained(k);
            let (left, frames, error) = frames_in(k);
            &&& error is None
            &&& left == end
            &&& frames.len() == messages.len()
            &&& forall|i: int|
                0 <= i < frames.len() ==> wire::decode_frame(messages[i]) == Ok::<
                    FrameState,
                    WireError,
                >(#[trigger] frames[i])
        }),
    decreases k.rcv_queue.len() + k.rcv_buf.len(),
{
    if let Ok(message) = kcp::model::peek(k) {
        kcp::laws::lemma_after_recv_shrinks(k);
        let next = kcp::model::after_recv(k);
        let (end, rest) = session::drained(next);
        let messages = session::drained(k).1;
        assert(messages == seq![message] + rest);
        assert forall|i: int| 0 <= i < rest.len() implies wire::decode_frame(
            #[trigger] session::drained(next).1[i],
        ) is Ok by {
            assert(messages[i + 1] == rest[i]);
        }
        assert(messages[0] == message);
        law_frames_are_the_messages(next);
        let frames = frames_in(k).1;
        let more = frames_in(next).1;
        assert forall|i: int| 0 <= i < frames.len() implies wire::decode_frame(messages[i])
            == Ok::<FrameState, WireError>(#[trigger] frames[i]) by {
            if i > 0 {
                assert(frames[i] == more[i - 1]);
                assert(messages[i] == rest[i - 1]);
            }
        }
    }
}

/// A segment of the other endpoint goes into the conversation that it names, which is created
/// if need be. What the conversation has to say goes out at once, and then the shell is told
/// of each frame that has come whole, in order.
pub proof fn law_segment_is_answered_and_told(s: HopState, now_ms: u64, segment: Seq<u8>)
    requires
        ({
            let conv_id = kcp::model::conv_of(segment);
            let (fed, taken) = kcp::model::input(conversation(s, conv_id), segment);
            let (flushed, segments) = session::flushed_now(fed, now_ms);
            &&& taken is Ok
            &&& can_send(s, segments)
            &&& forall|i: int|
                0 <= i < session::drained(flushed).1.len() ==> wire::decode_frame(
                    #[trigger] session::drained(flushed).1[i],
                ) is Ok
        }),
    ensures
        ({
            let conv_id = kcp::model::conv_of(segment);
            let fed = kcp::model::input(conversation(s, conv_id), segment).0;
            let (flushed, segments) = session::flushed_now(fed, now_ms);
            let frames = frames_in(flushed).1;
            let done = segment_received(s, now_ms, segment);
            &&& done.result is Ok
            &&& done.deeds == sendings(s, segments) + frames_handled(s, conv_id, frames).1
            &&& done.state.sessions.contains_key(conv_id) ==> done.state.sessions[conv_id]
                == session::drained(flushed).0
            &&& forall|other: ConvId|
                other != conv_id ==> (#[trigger] done.state.sessions.contains_key(other)
                    == s.sessions.contains_key(other)) && (s.sessions.contains_key(other)
                    ==> done.state.sessions[other] == s.sessions[other])
        }),
{
    reveal(segment_received);
    let conv_id = kcp::model::conv_of(segment);
    let ready = ensured(s, conv_id);
    assert(ready.sessions[conv_id] == conversation(s, conv_id));
    let fed = kcp::model::input(conversation(s, conv_id), segment).0;
    let (flushed, segments) = session::flushed_now(fed, now_ms);
    law_frames_are_the_messages(flushed);
    let (read, frames, _malformed) = frames_in(flushed);
    let kept = with_session(ready, conv_id, read);
    law_segments_go_out(kept, segments);
    assert(sendings(kept, segments) =~= sendings(s, segments));
    let answered = segments_sent(kept, segments);
    lemma_frames_independent(answered.state, s, conv_id, frames);
    let done = segment_received(s, now_ms, segment);
    assert(answered.state.sessions == kept.sessions);
    assert(done.state == frames_handled(answered.state, conv_id, frames).0);
    assert forall|other: ConvId| other != conv_id implies (
    #[trigger] done.state.sessions.contains_key(other) == s.sessions.contains_key(other)) && (
    s.sessions.contains_key(other) ==> done.state.sessions[other] == s.sessions[other]) by {
        assert(answered.state.sessions.contains_key(other) == s.sessions.contains_key(other));
    }
}

proof fn lemma_frames_independent(
    a: HopState,
    b: HopState,
    conv_id: ConvId,
    frames: Seq<FrameState>,
)
    ensures
        frames_handled(a, conv_id, frames).1 == frames_handled(b, conv_id, frames).1,
        ({
            let t = frames_handled(a, conv_id, frames).0;
            &&& t.sessions.contains_key(conv_id) ==> a.sessions.contains_key(conv_id)
                && t.sessions[conv_id] == a.sessions[conv_id]
            &&& forall|other: ConvId|
                other != conv_id ==> (#[trigger] t.sessions.contains_key(other)
                    == a.sessions.contains_key(other)) && (a.sessions.contains_key(other)
                    ==> t.sessions[other] == a.sessions[other])
        }),
    decreases frames.len(),
{
    if frames.len() > 0 {
        let x = crate::hop::endpoint::frame_handled(a, conv_id, frames[0]).0;
        let y = crate::hop::endpoint::frame_handled(b, conv_id, frames[0]).0;
        lemma_frames_independent(x, y, conv_id, frames.drop_first());
        let t = frames_handled(a, conv_id, frames).0;
        assert(t == frames_handled(x, conv_id, frames.drop_first()).0);
        assert forall|other: ConvId| other != conv_id implies (
        #[trigger] t.sessions.contains_key(other) == a.sessions.contains_key(other)) && (
        a.sessions.contains_key(other) ==> t.sessions[other] == a.sessions[other]) by {
            assert(x.sessions.contains_key(other) == a.sessions.contains_key(other));
        }
    }
}

/// A message is taken at the end of its route only, where it opens under the message key and
/// is long enough for a segment; else the error says which it is, and nothing changes.
pub proof fn law_envelope_is_checked(s: HopState, now_ms: u64, e: EnvelopeState)
    ensures
        ({
            let done = envelope_received(s, now_ms, e);
            let opened = message_opened(s.message_key, e.payload);
            if e.route_plan.len() > 0 {
                done.result == Err::<(), CoreError>(CoreError::NoRoute) && done.state == s
                    && done.deeds.len() == 0
            } else if opened is None {
                done.result == Err::<(), CoreError>(CoreError::EndpointMessageAuthFailed)
                    && done.state == s && done.deeds.len() == 0
            } else if opened->0.len() < 28 {
                done.result == Err::<(), CoreError>(
                    CoreError::InvalidKcpSegment(opened->0.len() as usize),
                ) && done.state == s && done.deeds.len() == 0
            } else {
                done == segment_received(s, now_ms, opened->0)
            }
        }),
{
}

/// The news of a channel is kept for local channels and counted for all; a connection that has
/// been opened for a session makes sure that the session is there, and says nothing.
pub proof fn law_channel_and_exit_news(
    s: HopState,
    now_ms: u64,
    channel_id: ChannelId,
    state: ChannelState,
    conv_id: ConvId,
)
    ensures
        ({
            let done = event_done(
                s,
                now_ms,
                CoreEvent::TransportChannelUpdated { channel_id, state },
                true,
            );
            &&& done.result is Ok
            &&& done.deeds == seq![
                Deed::Count(Metric::TransportChannelUpdated { channel_id, state }),
            ]
            &&& done.state == (HopState { channels: done.state.channels, ..s })
            &&& done.state.channels == if s.channels.contains_key(channel_id) {
                s.channels.insert(channel_id, state)
            } else {
                s.channels
            }
        }),
        ({
            let done = event_done(s, now_ms, CoreEvent::ExitConnectionOpened { conv_id }, true);
            &&& done.result is Ok
            &&& done.deeds.len() == 0
            &&& done.state.sessions == s.sessions.insert(conv_id, conversation(s, conv_id))
        }),
{
    let done = event_done(s, now_ms, CoreEvent::ExitConnectionOpened { conv_id }, true);
    assert(done.state.sessions =~= s.sessions.insert(conv_id, conversation(s, conv_id)));
}

/// Polling runs the timers of one session after the other, and sends what they make due.
pub proof fn law_poll_serves_every_session(
    s: HopState,
    now_ms: u64,
    convs: Seq<ConvId>,
    last: ConvId,
)
    requires
        sessions_polled(s, now_ms, convs).result is Ok,
        ({
            let t = sessions_polled(s, now_ms, convs).state;
            can_send(t, session::polled(t.sessions[last], now_ms).1)
        }),
    ensures
        ({
            let before = sessions_polled(s, now_ms, convs);
            let done = sessions_polled(s, now_ms, convs.push(last));
            let (k, segments) = session::polled(before.state.sessions[last], now_ms);
            &&& done.result is Ok
            &&& done.deeds == before.deeds + sendings(before.state, segments)
            &&& done.state.sessions == before.state.sessions.insert(last, k)
        }),
    decreases convs.len(),
{
    reveal_with_fuel(sessions_polled, 3);
    let all = convs.push(last);
    if convs.len() > 0 {
        let (k, segments) = session::polled(s.sessions[convs[0]], now_ms);
        let sent = segments_sent(with_session(s, convs[0], k), segments);
        assert(all[0] == convs[0]);
        assert(all.drop_first() =~= convs.drop_first().push(last));
        law_poll_serves_every_session(sent.state, now_ms, convs.drop_first(), last);
        let t = sessions_polled(s, now_ms, convs).state;
        let last_segments = session::polled(t.sessions[last], now_ms).1;
        assert(sessions_polled(s, now_ms, all).deeds =~= sessions_polled(s, now_ms, convs).deeds
            + sendings(t, last_segments));
    } else {
        let (k, segments) = session::polled(s.sessions[last], now_ms);
        let kept = with_session(s, last, k);
        law_segments_go_out(kept, segments);
        assert(sendings(kept, segments) =~= sendings(s, segments));
        assert(all[0] == last);
        assert(all.drop_first() =~= convs);
        let done = sessions_polled(s, now_ms, all);
        assert(done.deeds =~= Seq::<Deed>::empty() + sendings(s, segments));
    }
}

/// A session without anything to send or to wait for has no deadline; another one has that of
/// its timers.
pub proof fn law_deadline_of_a_session(k: KcpState, now_ms: u64)
    requires
        kcp::model::well_formed(k),
    ensures
        session_due(k, now_ms) is None <==> k.snd_buf.len() == 0 && k.snd_queue.len() == 0,
        session_due(k, now_ms) matches Some(at) ==> at == if now_ms + kcp::model::check(
            k,
            (now_ms % 0x1_0000_0000) as u32,
        ) <= 0xffff_ffff_ffff_ffff {
            now_ms + kcp::model::check(k, (now_ms % 0x1_0000_0000) as u32)
        } else {
            0xffff_ffff_ffff_ffff
        },
{
    kcp::flushing::law_check_waits_for_the_first(k, session::kcp_time(now_ms));
}

/// Sessions have windows of 128 segments, resend after two overtakings, run on a scale of ten,
/// and leave 128 bytes of a packet to what is around their segments, which have at least 50.
pub proof fn law_session_parameters(transport_mtu: usize)
    ensures
        ({
            let p = session_params(transport_mtu);
            &&& p.mtu == if transport_mtu >= 178 {
                transport_mtu - 128
            } else {
                50
            }
            &&& p.send_window == 128 && p.receive_window == 128
            &&& p.nodelay && !p.congestion_control
            &&& p.fast_resend == Some(2u32)
            &&& p.time_scale == 10
        }),
{
}

// ---------------------------------------------------------------------------
// The clock and the relay
// ---------------------------------------------------------------------------

/// Windows of the clock are 32768 ms long. A packet is tried in the window of the time and in
/// the one that is next nearest, and in no other: no time that is a window and a half away or
/// more shares one of them.
pub proof fn law_windows_end(time_ms: u64, other: u64)
    requires
        0x1_0000 <= time_ms < u64::MAX - 0x1_0000,
    ensures
        packet::window_bytes(time_ms) == packet::window_bytes(other) <==> time_ms / 32768 == other
            / 32768,
        other - time_ms >= 0xc000 || time_ms - other >= 0xc000 ==> {
            &&& packet::window_bytes(other) != packet::window_bytes(time_ms)
            &&& packet::window_bytes(other) != packet::window_bytes(packet::other_time(time_ms))
        },
{
    octets::lemma_pow256_values();
    let a = (time_ms as int / 32768) as nat;
    let b = (other as int / 32768) as nat;
    let c = (packet::other_time(time_ms) as int / 32768) as nat;
    octets::lemma_le_roundtrip(a, 8);
    octets::lemma_le_roundtrip(b, 8);
    octets::lemma_le_roundtrip(c, 8);
}

/// A relay sends an envelope on over the first channel of its plan, where that is a channel of
/// its own that is not down.
pub proof fn law_relay_follows_the_plan(
    channels: Map<ChannelId, ChannelState>,
    envelope: EnvelopeState,
)
    ensures
        next_hop(envelope) matches Some((channel_id, rest)) ==> {
            &&& envelope.route_plan.len() > 0
            &&& channel_id == envelope.route_plan[0]
            &&& rest == (EnvelopeState {
                route_plan: envelope.route_plan.subrange(
                    1,
                    envelope.route_plan.len() as int,
                ),
                payload: envelope.payload,
            })
            &&& usable(channels, channel_id) <==> channels.contains_key(channel_id) && (
            channels[channel_id] == ChannelState::Up || channels[channel_id]
                == ChannelState::Degraded)
        },
{
    if let Some((_channel_id, rest)) = next_hop(envelope) {
        assert(rest.route_plan =~= envelope.route_plan.subrange(
            1,
            envelope.route_plan.len() as int,
        ));
    }
}

} // verus!
