//! The endpoint of a hop by hop network: sessions over KCP, whose segments travel in sealed
//! messages along a route plan.
use std::collections::BTreeMap;
use vstd::prelude::*;

use crate::endpoint::session;
use crate::hop::machine;
use crate::hop::machine::{
    ChannelState, ConfigError, ConvId, ConvIds, CoreError, CoreEvent, CoreStructuredEvent,
    EndpointConfig, FrameStep, OpenFailureReason,
};
use crate::hop::nonce;
use crate::hop::nonce::NonceFilter;
use crate::hop::packet;
use crate::hop::packet::HopPacketError;
use crate::hop::wire;
use crate::hop::wire::{
    ChannelId, CloseReason, Envelope, EnvelopeState, FrameState, Items, Metadata, ReasonState,
    SessionFrame, Target, WireError, MAX_ENVELOPE_SIZE, MAX_ROUTE_PLAN_LEN,
};
use crate::kcp;
use crate::kcp::model::KcpState;
use crate::kcp::{get_conv, Kcp, KcpParams, KCP_OVERHEAD};
use crate::ordered;
use crate::random;
use crate::random::{RandomState, RandomStream};
use crate::text;

verus! {

broadcast use {vstd::std_specs::btree::group_btree_axioms, vstd::laws_cmp::group_laws_cmp};

#[derive(Debug, Clone, Copy, PartialEq, Eq, Structural)]
pub enum Metric {
    TransportChannelUpdated { channel_id: ChannelId, state: ChannelState },
    IngressSessionCreated { conv_id: ConvId },
    SessionClosed { conv_id: ConvId },
}

/// What an endpoint wants done.
#[derive(Debug, Clone, PartialEq, Eq)]
pub enum CoreAction {
    SendTransportPacket { channel_id: ChannelId, bytes: Vec<u8> },
    IngressSessionCreated { conv_id: ConvId },
    OpenExitConnection { conv_id: ConvId, target: Target, metadata: Metadata },
    WriteSession { conv_id: ConvId, bytes: Vec<u8> },
    CloseSession { conv_id: ConvId, reason: CloseReason },
    EmitMetric(Metric),
    EmitEvent(CoreStructuredEvent),
}

// ---------------------------------------------------------------------------
// Model
// ---------------------------------------------------------------------------

/// The state of an endpoint.
#[verifier::ext_equal]
pub struct HopState {
    pub envelope_key: Seq<u8>,
    pub message_key: Seq<u8>,
    pub params: KcpParams,
    /// The route plan in force.
    pub plan: Option<Seq<ChannelId>>,
    pub channels: Map<ChannelId, ChannelState>,
    pub sessions: Map<ConvId, KcpState>,
    pub next_conv_id: ConvId,
    /// Where the nonces of envelopes come from.
    pub envelope_random: RandomState,
    /// Where the nonces of messages come from.
    pub message_random: RandomState,
}

/// What the envelope nonces of an endpoint are drawn for.
pub const ENDPOINT_ENVELOPE_DOMAIN: &'static str = "endpoint envelope";

/// What the message nonces of an endpoint are drawn for.
pub const ENDPOINT_MESSAGE_DOMAIN: &'static str = "endpoint message";

/// What a packet is sealed under.
#[verifier::ext_equal]
pub struct Nonces {
    pub envelope: Seq<u8>,
    pub message: Seq<u8>,
}

/// An action, with the segment of a packet still in the open.
#[verifier::ext_equal]
pub enum Deed {
    Send { channel_id: ChannelId, route_plan: Seq<ChannelId>, nonces: Nonces, segment: Seq<u8> },
    SessionCreated { conv_id: ConvId },
    OpenExit { conv_id: ConvId, host: Seq<u8>, port: u16, metadata: Items },
    Write { conv_id: ConvId, bytes: Seq<u8> },
    Close { conv_id: ConvId, reason: ReasonState },
    Count(Metric),
    Report(CoreStructuredEvent),
}

/// What an event or the passing of time comes to.
#[verifier::ext_equal]
pub struct Done {
    pub state: HopState,
    pub deeds: Seq<Deed>,
    pub result: Result<(), CoreError>,
}

/// The limits of all sessions under this size of packets.
pub open spec fn session_params(transport_mtu: usize) -> KcpParams {
    KcpParams {
        mtu: if transport_mtu >= 178 {
            (transport_mtu - 128) as usize
        } else {
            50
        },
        send_window: 128,
        receive_window: 128,
        nodelay: true,
        fast_resend: Some(2),
        congestion_control: false,
        time_scale: 10,
    }
}

/// The segment travels in the packet: sealed for the other endpoint, in an envelope with this
/// plan, which is sealed for the next hop.
#[verifier::opaque]
pub open spec fn carries(
    now_ms: u64,
    envelope_key: Seq<u8>,
    message_key: Seq<u8>,
    bytes: Seq<u8>,
    route_plan: Seq<ChannelId>,
    nonces: Nonces,
    segment: Seq<u8>,
) -> bool {
    let message = machine::sealed_message(nonces.message, message_key, segment);
    &&& machine::message_opened(message_key, message) == Some(segment)
    &&& message.len() == 32 + segment.len()
    &&& wire::encode_envelope(EnvelopeState { route_plan, payload: message }) matches Ok(payload)
    &&& bytes == packet::sealed_bytes(nonces.envelope, now_ms, envelope_key, payload)
    &&& packet::opens_near(now_ms, envelope_key, bytes, payload)
}

/// The action is this one.
pub open spec fn done_as(s: HopState, now_ms: u64, action: CoreAction, deed: Deed) -> bool {
    match (action, deed) {
        (
            CoreAction::SendTransportPacket { channel_id: on, bytes },
            Deed::Send { channel_id, route_plan, nonces, segment },
        ) => on == channel_id && carries(
            now_ms,
            s.envelope_key,
            s.message_key,
            bytes@,
            route_plan,
            nonces,
            segment,
        ),
        (
            CoreAction::IngressSessionCreated { conv_id: created },
            Deed::SessionCreated { conv_id },
        ) => created == conv_id,
        (
            CoreAction::OpenExitConnection { conv_id: opened, target, metadata: found },
            Deed::OpenExit { conv_id, host, port, metadata },
        ) => opened == conv_id && text::utf8(target.host@) == host && target.port == port
            && found@ == metadata,
        (
            CoreAction::WriteSession { conv_id: to, bytes: found },
            Deed::Write { conv_id, bytes },
        ) => to == conv_id && found@ == bytes,
        (
            CoreAction::CloseSession { conv_id: closed, reason: found },
            Deed::Close { conv_id, reason },
        ) => closed == conv_id && found@ == reason,
        (CoreAction::EmitMetric(found), Deed::Count(metric)) => found == metric,
        (CoreAction::EmitEvent(found), Deed::Report(event)) => found == event,
        _ => false,
    }
}

/// These actions have been added, and no other has changed.
pub open spec fn appended(
    s: HopState,
    now_ms: u64,
    before: Seq<CoreAction>,
    after: Seq<CoreAction>,
    deeds: Seq<Deed>,
) -> bool {
    &&& after.len() == before.len() + deeds.len()
    &&& forall|i: int| 0 <= i < before.len() ==> #[trigger] after[i] == before[i]
    &&& forall|i: int|
        before.len() <= i < after.len() ==> done_as(
            s,
            now_ms,
            #[trigger] after[i],
            deeds[i - before.len()],
        )
}

pub open spec fn with_session(s: HopState, conv_id: ConvId, k: KcpState) -> HopState {
    HopState { sessions: s.sessions.insert(conv_id, k), ..s }
}

/// The session is there.
pub open spec fn ensured(s: HopState, conv_id: ConvId) -> HopState {
    if s.sessions.contains_key(conv_id) {
        s
    } else {
        with_session(s, conv_id, kcp::model::init(conv_id, s.params))
    }
}

/// A segment is sent along the plan, if there is one and it fits an envelope. Sealing it for
/// the other endpoint takes a nonce in any case, sealing it for the next hop takes one where
/// it is sent.
pub open spec fn segment_sent(s: HopState, segment: Seq<u8>) -> Done {
    let drawn = HopState { message_random: random::skip_bytes(s.message_random, 16), ..s };
    let refused = |error: CoreError|
        Done { state: drawn, deeds: Seq::empty(), result: Err(error) };
    if s.plan is None || s.plan->0.len() == 0 {
        refused(CoreError::NoRoute)
    } else if s.plan->0.len() - 1 > MAX_ROUTE_PLAN_LEN {
        refused(CoreError::Wire(WireError::CountOutOfBounds))
    } else if 32 + segment.len() > MAX_ENVELOPE_SIZE {
        refused(CoreError::Wire(WireError::TooLarge))
    } else {
        Done {
            state: HopState {
                envelope_random: random::skip_bytes(s.envelope_random, 16),
                ..drawn
            },
            deeds: seq![
                Deed::Send {
                    channel_id: s.plan->0[0],
                    route_plan: s.plan->0.drop_first(),
                    nonces: Nonces {
                        envelope: random::next_bytes(s.envelope_random, 16),
                        message: random::next_bytes(s.message_random, 16),
                    },
                    segment,
                },
            ],
            result: Ok(()),
        }
    }
}

/// The segments are sent, up to the first that cannot be.
pub open spec fn segments_sent(s: HopState, segments: Seq<Seq<u8>>) -> Done
    decreases segments.len(),
{
    if segments.len() == 0 {
        Done { state: s, deeds: Seq::empty(), result: Ok(()) }
    } else {
        let first = segment_sent(s, segments[0]);
        if first.result is Err {
            first
        } else {
            let rest = segments_sent(first.state, segments.drop_first());
            Done { deeds: first.deeds + rest.deeds, ..rest }
        }
    }
}

/// A frame is sent in its session, which is created if need be.
#[verifier::opaque]
pub open spec fn frame_sent(s: HopState, now_ms: u64, conv_id: ConvId, frame: FrameState) -> Done {
    let ready = ensured(s, conv_id);
    match wire::encode_frame(frame) {
        Err(error) => Done {
            state: ready,
            deeds: Seq::empty(),
            result: Err(CoreError::Wire(error)),
        },
        Ok(bytes) => {
            let (queued, taken) = kcp::model::send(ready.sessions[conv_id], bytes);
            match taken {
                Err(error) => Done {
                    state: with_session(ready, conv_id, queued),
                    deeds: Seq::empty(),
                    result: Err(CoreError::Session(error)),
                },
                Ok(_) => {
                    let (flushed, segments) = session::flushed_now(queued, now_ms);
                    segments_sent(with_session(ready, conv_id, flushed), segments)
                },
            }
        },
    }
}

/// The frames that a conversation has received whole, up to the first that is malformed.
pub open spec fn frames_in(k: KcpState) -> (KcpState, Seq<FrameState>, Option<WireError>)
    decreases k.rcv_queue.len() + k.rcv_buf.len(),
{
    match kcp::model::peek(k) {
        Err(_) => (k, Seq::empty(), None),
        Ok(message) => {
            proof {
                kcp::laws::lemma_after_recv_shrinks(k);
            }
            let next = kcp::model::after_recv(k);
            match wire::decode_frame(message) {
                Err(error) => (next, Seq::empty(), Some(error)),
                Ok(frame) => {
                    let (end, rest, error) = frames_in(next);
                    (end, seq![frame] + rest, error)
                },
            }
        },
    }
}

/// What reports the end of a session.
pub open spec fn end_reported(conv_id: ConvId) -> Seq<Deed> {
    seq![
        Deed::Count(Metric::SessionClosed { conv_id }),
        Deed::Report(CoreStructuredEvent::SessionClosed { conv_id }),
    ]
}

/// What a frame of the other endpoint brings about.
pub open spec fn frame_handled(s: HopState, conv_id: ConvId, frame: FrameState) -> (
    HopState,
    Seq<Deed>,
) {
    match frame {
        FrameState::OpenConnection { host, port, metadata } => (
            s,
            seq![Deed::OpenExit { conv_id, host, port, metadata }],
        ),
        FrameState::ConnectionBytes { bytes } => (s, seq![Deed::Write { conv_id, bytes }]),
        FrameState::CloseConnection { reason } => (
            HopState { sessions: s.sessions.remove(conv_id), ..s },
            seq![Deed::Close { conv_id, reason }] + end_reported(conv_id),
        ),
        FrameState::ResetConnection { reason } => (
            HopState { sessions: s.sessions.remove(conv_id), ..s },
            seq![Deed::Close { conv_id, reason }] + end_reported(conv_id),
        ),
        FrameState::KeepAlive => (s, Seq::empty()),
    }
}

/// The frames of the other endpoint, one after the other.
pub open spec fn frames_handled(s: HopState, conv_id: ConvId, frames: Seq<FrameState>) -> (
    HopState,
    Seq<Deed>,
)
    decreases frames.len(),
{
    if frames.len() == 0 {
        (s, Seq::empty())
    } else {
        let (next, first) = frame_handled(s, conv_id, frames[0]);
        let (end, rest) = frames_handled(next, conv_id, frames.drop_first());
        (end, first + rest)
    }
}

/// A segment of the other endpoint arrives in its session, which is created if need be. What
/// has to be sent in answer goes out before the frames are handled.
#[verifier::opaque]
pub open spec fn segment_received(s: HopState, now_ms: u64, segment: Seq<u8>) -> Done {
    let conv_id = kcp::model::conv_of(segment);
    let ready = ensured(s, conv_id);
    let (fed, taken) = kcp::model::input(ready.sessions[conv_id], segment);
    match taken {
        Err(error) => Done {
            state: with_session(ready, conv_id, fed),
            deeds: Seq::empty(),
            result: Err(CoreError::Session(error)),
        },
        Ok(_) => {
            let (flushed, segments) = session::flushed_now(fed, now_ms);
            let (read, frames, malformed) = frames_in(flushed);
            let kept = with_session(ready, conv_id, read);
            match malformed {
                Some(error) => Done {
                    state: kept,
                    deeds: Seq::empty(),
                    result: Err(CoreError::Wire(error)),
                },
                None => {
                    let answered = segments_sent(kept, segments);
                    if answered.result is Err {
                        answered
                    } else {
                        let (end, told) = frames_handled(answered.state, conv_id, frames);
                        Done { state: end, deeds: answered.deeds + told, ..answered }
                    }
                },
            }
        },
    }
}

/// An envelope arrives at the end of its plan.
pub open spec fn envelope_received(s: HopState, now_ms: u64, e: EnvelopeState) -> Done {
    let refused = |error: CoreError| Done { state: s, deeds: Seq::empty(), result: Err(error) };
    if e.route_plan.len() > 0 {
        refused(CoreError::NoRoute)
    } else {
        match machine::message_opened(s.message_key, e.payload) {
            None => refused(CoreError::EndpointMessageAuthFailed),
            Some(segment) => if segment.len() < KCP_OVERHEAD {
                refused(CoreError::InvalidKcpSegment(segment.len() as usize))
            } else {
                segment_received(s, now_ms, segment)
            },
        }
    }
}

/// The text that tells the other endpoint why a connection could not be opened.
pub open spec fn failure_text(reason: OpenFailureReason) -> Seq<char> {
    match reason {
        OpenFailureReason::Refused => "Refused"@,
        OpenFailureReason::Timeout => "Timeout"@,
        OpenFailureReason::UnsupportedTarget => "UnsupportedTarget"@,
        OpenFailureReason::Error(message) => "Error("@ + text::quoted(message@) + ")"@,
    }
}

/// What an event comes to. `fresh` says whether the nonce of a packet is new.
pub open spec fn event_done(s: HopState, now_ms: u64, event: CoreEvent, fresh: bool) -> Done {
    match event {
        CoreEvent::IngressSessionRequested { target, metadata } => {
            let conv_id = s.next_conv_id;
            let created = ensured(
                HopState { next_conv_id: conv_id.wrapping_add(1), ..s },
                conv_id,
            );
            let sent = frame_sent(
                created,
                now_ms,
                conv_id,
                FrameState::OpenConnection {
                    host: text::utf8(target.host@),
                    port: target.port,
                    metadata: metadata@,
                },
            );
            let told = seq![
                Deed::SessionCreated { conv_id },
                Deed::Count(Metric::IngressSessionCreated { conv_id }),
                Deed::Report(CoreStructuredEvent::IngressSessionCreated { conv_id }),
            ];
            Done { deeds: told + sent.deeds, ..sent }
        },
        CoreEvent::ExitConnectionOpened { conv_id } => Done {
            state: ensured(s, conv_id),
            deeds: Seq::empty(),
            result: Ok(()),
        },
        CoreEvent::ExitConnectionOpenFailed { conv_id, reason } => frame_sent(
            s,
            now_ms,
            conv_id,
            FrameState::ResetConnection {
                reason: ReasonState::Error { message: text::utf8(failure_text(reason)) },
            },
        ),
        CoreEvent::SessionBytes { conv_id, bytes } => frame_sent(
            s,
            now_ms,
            conv_id,
            FrameState::ConnectionBytes { bytes: bytes@ },
        ),
        CoreEvent::SessionClosed { conv_id, reason } => {
            let sent = frame_sent(
                s,
                now_ms,
                conv_id,
                FrameState::CloseConnection { reason: reason@ },
            );
            if sent.result is Err {
                sent
            } else {
                Done {
                    state: HopState { sessions: sent.state.sessions.remove(conv_id), ..sent.state },
                    deeds: sent.deeds + end_reported(conv_id),
                    ..sent
                }
            }
        },
        CoreEvent::TransportChannelUpdated { channel_id, state } => Done {
            state: HopState {
                channels: if s.channels.contains_key(channel_id) {
                    s.channels.insert(channel_id, state)
                } else {
                    s.channels
                },
                ..s
            },
            deeds: seq![Deed::Count(Metric::TransportChannelUpdated { channel_id, state })],
            result: Ok(()),
        },
        CoreEvent::TransportPacketReceived { bytes, .. } => match machine::envelope_in(
            now_ms,
            s.envelope_key,
            bytes@,
            fresh,
        ) {
            Err(error) => Done { state: s, deeds: Seq::empty(), result: Err(error) },
            Ok(e) => envelope_received(s, now_ms, e),
        },
    }
}

/// The timers of these sessions run, one after the other, up to the first whose segments
/// cannot be sent.
pub open spec fn sessions_polled(s: HopState, now_ms: u64, convs: Seq<ConvId>) -> Done
    decreases convs.len(),
{
    if convs.len() == 0 {
        Done { state: s, deeds: Seq::empty(), result: Ok(()) }
    } else {
        let (k, segments) = session::polled(s.sessions[convs[0]], now_ms);
        let sent = segments_sent(with_session(s, convs[0], k), segments);
        if sent.result is Err {
            sent
        } else {
            let rest = sessions_polled(sent.state, now_ms, convs.drop_first());
            Done { deeds: sent.deeds + rest.deeds, ..rest }
        }
    }
}

/// When a session has to be polled: not at all while nothing waits to be sent or acknowledged.
pub open spec fn session_due(k: KcpState, now_ms: u64) -> Option<u64> {
    if k.snd_buf.len() + k.snd_queue.len() == 0 {
        None
    } else {
        let at = now_ms + kcp::model::check(k, session::kcp_time(now_ms));
        Some(
            if at <= u64::MAX {
                at as u64
            } else {
                u64::MAX
            },
        )
    }
}

// ---------------------------------------------------------------------------
// Machine
// ---------------------------------------------------------------------------

proof fn lemma_appended_more(
    s: HopState,
    now_ms: u64,
    a: Seq<CoreAction>,
    b: Seq<CoreAction>,
    c: Seq<CoreAction>,
    first: Seq<Deed>,
    rest: Seq<Deed>,
)
    requires
        appended(s, now_ms, a, b, first),
        appended(s, now_ms, b, c, rest),
    ensures
        appended(s, now_ms, a, c, first + rest),
{
    assert forall|i: int| 0 <= i < a.len() implies #[trigger] c[i] == a[i] by {
        assert(c[i] == b[i]);
    }
    assert forall|i: int| a.len() <= i < c.len() implies done_as(
        s,
        now_ms,
        #[trigger] c[i],
        (first + rest)[i - a.len()],
    ) by {
        if i < b.len() {
            assert(c[i] == b[i]);
        }
    }
}

/// The plan behind its first channel.
fn plan_tail(plan: &Vec<ChannelId>) -> (tail: Vec<ChannelId>)
    requires
        plan@.len() > 0,
    ensures
        tail@ == plan@.drop_first(),
{
    let mut tail: Vec<ChannelId> = Vec::new();
    let mut i: usize = 1;
    while i < plan.len()
        invariant
            1 <= i <= plan@.len(),
            tail@ == plan@.subrange(1, i as int),
        decreases plan@.len() - i,
    {
        tail.push(plan[i]);
        i = i + 1;
        assert(tail@ =~= plan@.subrange(1, i as int));
    }
    assert(tail@ =~= plan@.drop_first());
    tail
}

fn reason_text(reason: &OpenFailureReason) -> (told: String)
    ensures
        told@ == failure_text(*reason),
{
    match reason {
        OpenFailureReason::Refused => "Refused".to_owned(),
        OpenFailureReason::Timeout => "Timeout".to_owned(),
        OpenFailureReason::UnsupportedTarget => "UnsupportedTarget".to_owned(),
        OpenFailureReason::Error(message) => {
            let quoted: String = text::quote(message);
            let mut told: String = "Error(".to_owned();
            told.append(quoted.as_str());
            told.append(")");
            told
        },
    }
}

/// Runs the timers of a conversation, sends whatever can be sent, and takes the segments out.
fn flush_now(kcp: &mut Kcp, now_ms: u64) -> (segments: Vec<Vec<u8>>)
    requires
        old(kcp).wf(),
    ensures
        final(kcp).wf(),
        (final(kcp)@, kcp::control::packets(segments@)) == session::flushed_now(
            old(kcp)@,
            now_ms,
        ),
{
    proof {
        reveal(session::flushed_now);
        kcp::laws::lemma_update_frame(kcp@, session::kcp_time(now_ms));
    }
    let _ = kcp.update(session::kcp_clock(now_ms));
    let _ = kcp.flush();
    kcp.take_output()
}

/// The frames that a conversation has received whole.
fn recv_frames(kcp: &mut Kcp) -> (result: Result<Vec<SessionFrame>, WireError>)
    requires
        old(kcp).wf(),
    ensures
        final(kcp).wf(),
        ({
            let (end, frames, malformed) = frames_in(old(kcp)@);
            &&& final(kcp)@ == end
            &&& match result {
                Ok(found) => malformed is None && frame_states(found@) == frames,
                Err(error) => malformed == Some(error),
            }
        }),
{
    let mut frames: Vec<SessionFrame> = Vec::new();
    let ghost whole = frames_in(kcp@);
    assert(frame_states(frames@) + whole.1 =~= whole.1);
    loop
        invariant
            kcp.wf(),
            whole == frames_in(old(kcp)@),
            whole.0 == frames_in(kcp@).0,
            whole.1 == frame_states(frames@) + frames_in(kcp@).1,
            whole.2 == frames_in(kcp@).2,
        decreases kcp@.rcv_queue.len() + kcp@.rcv_buf.len(),
    {
        let ghost k = kcp@;
        let ghost before = frame_states(frames@);
        match kcp.recv_message() {
            Err(_) => {
                assert(before + Seq::<FrameState>::empty() =~= before);
                return Ok(frames);
            },
            Ok(message) => {
                proof {
                    kcp::laws::lemma_after_recv_shrinks(k);
                }
                match SessionFrame::decode(message.as_slice()) {
                    Err(error) => {
                        return Err(error);
                    },
                    Ok(frame) => {
                        let ghost rest = frames_in(kcp@).1;
                        frames.push(frame);
                        proof {
                            assert(frame_states(frames@) =~= before.push(frame@));
                            assert(before + (seq![frame@] + rest) =~= before.push(frame@) + rest);
                        }
                    },
                }
            },
        }
    }
}

spec fn frame_states(frames: Seq<SessionFrame>) -> Seq<FrameState> {
    Seq::new(frames.len(), |i: int| frames[i]@)
}

/// An endpoint.
pub struct EndpointCore {
    config: EndpointConfig,
    route_plan: Option<Vec<ChannelId>>,
    channels: BTreeMap<ChannelId, ChannelState>,
    filter: NonceFilter,
    sessions: BTreeMap<ConvId, Kcp>,
    ids: ConvIds,
    envelope_random: RandomStream,
    message_random: RandomStream,
}

impl View for EndpointCore {
    type V = HopState;

    closed spec fn view(&self) -> HopState {
        HopState {
            envelope_key: self.config.envelope_key@,
            message_key: self.config.message_key@,
            params: session_params(self.config.transport_mtu),
            plan: match self.route_plan {
                Some(plan) => Some(plan@),
                None => None,
            },
            channels: self.channels@,
            sessions: self.sessions@.map_values(|k: Kcp| k@),
            next_conv_id: self.ids.next_conv_id,
            envelope_random: self.envelope_random@,
            message_random: self.message_random@,
        }
    }
}

impl EndpointCore {
    pub closed spec fn seen(&self) -> nonce::NonceState {
        self.filter@
    }

    pub closed spec fn wf(&self) -> bool {
        &&& self.config.transport_mtu <= u32::MAX
        &&& forall|conv_id: ConvId| #[trigger]
            self.sessions@.contains_key(conv_id) ==> self.sessions@[conv_id].wf()
    }

    /// An endpoint whose channels are all up, with a first route plan, which has seen no
    /// packet.
    pub fn new(config: EndpointConfig, route_plan: Option<Vec<ChannelId>>) -> (result: Result<
        EndpointCore,
        ConfigError,
    >)
        requires
            config.transport_mtu <= u32::MAX,
        ensures
            match result {
                Ok(core) => {
                    &&& core.wf()
                    &&& machine::endpoint_config_ok(config)
                    &&& route_plan is Some
                    &&& core@.envelope_key == config.envelope_key@
                    &&& core@.message_key == config.message_key@
                    &&& core@.params == session_params(config.transport_mtu)
                    &&& core@.plan == Some(route_plan->0@)
                    &&& core@.channels == machine::fresh_channels(config.local_channels@)
                    &&& core@.sessions == Map::<ConvId, KcpState>::empty()
                    &&& core@.next_conv_id == machine::first_conv_id(config.random_seed@)
                    &&& core@.envelope_random == random::seeded_for(
                        config.random_seed@,
                        ENDPOINT_ENVELOPE_DOMAIN@,
                    )
                    &&& core@.message_random == random::seeded_for(
                        config.random_seed@,
                        ENDPOINT_MESSAGE_DOMAIN@,
                    )
                    &&& core.seen() == (nonce::NonceState {
                        current: Set::empty(),
                        previous: Set::empty(),
                        rotate_every_ms: nonce::REPLAY_PERIOD_MS,
                        last_rotate_ms: 0,
                    })
                },
                Err(ConfigError::NoRoute) => machine::endpoint_config_ok(config)
                    && route_plan is None,
                Err(error) => machine::config_error(config, error),
            },
    {
        if let Err(error) = machine::validate_endpoint_config(&config) {
            return Err(error);
        }
        if route_plan.is_none() {
            return Err(ConfigError::NoRoute);
        }
        let channels = machine::all_up(&config.local_channels);
        let ids = ConvIds::from_seed(&config.random_seed);
        let envelope_random = RandomStream::for_domain(
            config.random_seed,
            ENDPOINT_ENVELOPE_DOMAIN,
        );
        let message_random = RandomStream::for_domain(config.random_seed, ENDPOINT_MESSAGE_DOMAIN);
        let core = EndpointCore {
            config,
            route_plan,
            channels,
            filter: nonce::core_filter(),
            sessions: BTreeMap::new(),
            ids,
            envelope_random,
            message_random,
        };
        assert(core@.sessions =~= Map::<ConvId, KcpState>::empty());
        Ok(core)
    }

    /// Puts another route plan in force, or none.
    pub fn set_route_plan(&mut self, route_plan: Option<Vec<ChannelId>>)
        requires
            old(self).wf(),
        ensures
            final(self).wf(),
            final(self).seen() == old(self).seen(),
            final(self)@ == (HopState {
                plan: match route_plan {
                    Some(plan) => Some(plan@),
                    None => None,
                },
                ..old(self)@
            }),
    {
        self.route_plan = route_plan;
    }

    /// Sends one segment along the plan in force.
    fn send_segment(&mut self, now_ms: u64, segment: &Vec<u8>, actions: &mut Vec<CoreAction>) -> (
        result: Result<(), CoreError>)
        requires
            old(self).wf(),
        ensures
            final(self).wf(),
            final(self).seen() == old(self).seen(),
            ({
                let done = segment_sent(old(self)@, segment@);
                &&& final(self)@ == done.state
                &&& result == done.result
                &&& appended(old(self)@, now_ms, old(actions)@, final(actions)@, done.deeds)
            }),
    {
        let ghost s = self@;
        let nonce: [u8; 16] = self.message_random.nonce();
        let payload: Vec<u8> = machine::seal_endpoint_message(
            &nonce,
            &self.config.message_key,
            segment.as_slice(),
        );
        let plan: &Vec<ChannelId> = match &self.route_plan {
            Some(plan) => plan,
            None => return Err(CoreError::NoRoute),
        };
        if plan.len() == 0 {
            return Err(CoreError::NoRoute);
        }
        let channel_id: ChannelId = plan[0];
        let ghost message = payload@;
        let envelope = Envelope { route_plan: plan_tail(plan), payload };
        assert(envelope@ == (EnvelopeState {
            route_plan: s.plan->0.drop_first(),
            payload: message,
        }));
        match machine::encode_hop_packet(
            now_ms,
            &self.config.envelope_key,
            &mut self.envelope_random,
            &envelope,
        ) {
            Ok(bytes) => {
                proof {
                    reveal(carries);
                }
                actions.push(CoreAction::SendTransportPacket { channel_id, bytes });
                Ok(())
            },
            Err(error) => Err(error),
        }
    }

    /// Sends the segments, up to the first that cannot be sent.
    fn send_segments(
        &mut self,
        now_ms: u64,
        segments: &Vec<Vec<u8>>,
        actions: &mut Vec<CoreAction>,
    ) -> (result: Result<(), CoreError>)
        requires
            old(self).wf(),
        ensures
            final(self).wf(),
            final(self).seen() == old(self).seen(),
            ({
                let done = segments_sent(old(self)@, kcp::control::packets(segments@));
                &&& final(self)@ == done.state
                &&& result == done.result
                &&& appended(old(self)@, now_ms, old(actions)@, final(actions)@, done.deeds)
            }),
    {
        let ghost s = self@;
        let ghost all = kcp::control::packets(segments@);
        let ghost whole = segments_sent(s, all);
        let ghost mut sent: Seq<Deed> = Seq::empty();
        let mut i: usize = 0;
        assert(all.skip(0) =~= all);
        assert(sent + whole.deeds =~= whole.deeds);
        while i < segments.len()
            invariant
                self.wf(),
                self.seen() == old(self).seen(),
                s == old(self)@,
                self@.envelope_key == s.envelope_key,
                self@.message_key == s.message_key,
                all == kcp::control::packets(segments@),
                whole == segments_sent(s, all),
                i <= segments@.len(),
                appended(s, now_ms, old(actions)@, actions@, sent),
                ({
                    let rest = segments_sent(self@, all.skip(i as int));
                    &&& whole.state == rest.state
                    &&& whole.result == rest.result
                    &&& whole.deeds == sent + rest.deeds
                }),
            decreases segments@.len() - i,
        {
            let ghost left = all.skip(i as int);
            let ghost before = actions@;
            let ghost here = self@;
            let ghost first = segment_sent(here, left[0]);
            assert(left[0] == segments@[i as int]@);
            assert(left.drop_first() =~= all.skip(i + 1));
            let result = self.send_segment(now_ms, &segments[i], actions);
            proof {
                lemma_same_keys(s, here, now_ms, before, actions@, first.deeds);
                lemma_appended_more(
                    s,
                    now_ms,
                    old(actions)@,
                    before,
                    actions@,
                    sent,
                    first.deeds,
                );
            }
            if let Err(error) = result {
                return Err(error);
            }
            proof {
                let rest = segments_sent(first.state, left.drop_first()).deeds;
                assert(sent + (first.deeds + rest) =~= (sent + first.deeds) + rest);
                sent = sent + first.deeds;
            }
            i = i + 1;
        }
        assert(all.skip(i as int) =~= Seq::<Seq<u8>>::empty());
        assert(sent + Seq::<Deed>::empty() =~= sent);
        Ok(())
    }

    /// Takes the session out of the table; a new one if there is none.
    fn take_session(&mut self, conv_id: ConvId) -> (kcp: Kcp)
        requires
            old(self).wf(),
        ensures
            final(self).wf(),
            kcp.wf(),
            kcp@ == ensured(old(self)@, conv_id).sessions[conv_id],
            final(self).seen() == old(self).seen(),
            final(self)@ == (HopState {
                sessions: old(self)@.sessions.remove(conv_id),
                ..old(self)@
            }),
    {
        let found = self.sessions.remove(&conv_id);
        assert(self@.sessions =~= old(self)@.sessions.remove(conv_id));
        match found {
            Some(kcp) => kcp,
            None => {
                let params = KcpParams {
                    mtu: machine::session_mtu(self.config.transport_mtu),
                    send_window: 128,
                    receive_window: 128,
                    nodelay: true,
                    fast_resend: Some(2),
                    congestion_control: false,
                    time_scale: 10,
                };
                Kcp::new(conv_id, params)
            },
        }
    }

    fn put_session(&mut self, conv_id: ConvId, kcp: Kcp)
        requires
            old(self).wf(),
            kcp.wf(),
        ensures
            final(self).wf(),
            final(self).seen() == old(self).seen(),
            final(self)@ == with_session(old(self)@, conv_id, kcp@),
    {
        self.sessions.insert(conv_id, kcp);
        assert(self@.sessions =~= old(self)@.sessions.insert(conv_id, kcp@));
    }

    /// Sends a frame in its session.
    fn send_frame(
        &mut self,
        now_ms: u64,
        conv_id: ConvId,
        frame: &SessionFrame,
        actions: &mut Vec<CoreAction>,
    ) -> (result: Result<(), CoreError>)
        requires
            old(self).wf(),
        ensures
            final(self).wf(),
            final(self).seen() == old(self).seen(),
            ({
                let done = frame_sent(old(self)@, now_ms, conv_id, frame@);
                &&& final(self)@ == done.state
                &&& result == done.result
                &&& appended(old(self)@, now_ms, old(actions)@, final(actions)@, done.deeds)
            }),
    {
        let ghost s = self@;
        proof {
            reveal(frame_sent);
        }
        let mut kcp: Kcp = self.take_session(conv_id);
        let bytes: Vec<u8> = match frame.encode() {
            Ok(bytes) => bytes,
            Err(error) => {
                self.put_session(conv_id, kcp);
                assert(self@.sessions =~= ensured(s, conv_id).sessions);
                return Err(CoreError::Wire(error));
            },
        };
        let taken = kcp.send(bytes.as_slice());
        if let Err(error) = taken {
            self.put_session(conv_id, kcp);
            assert(self@.sessions =~= ensured(s, conv_id).sessions.insert(conv_id, kcp@));
            return Err(CoreError::Session(error));
        }
        let segments: Vec<Vec<u8>> = flush_now(&mut kcp, now_ms);
        let ghost flushed = kcp@;
        self.put_session(conv_id, kcp);
        assert(self@.sessions =~= ensured(s, conv_id).sessions.insert(conv_id, flushed));
        let ghost kept = self@;
        let result = self.send_segments(now_ms, &segments, actions);
        proof {
            let done = frame_sent(s, now_ms, conv_id, frame@);
            lemma_same_keys(s, kept, now_ms, old(actions)@, actions@, done.deeds);
        }
        result
    }

    /// Deals with the frames that have come whole.
    fn handle_frames(
        &mut self,
        now_ms: u64,
        conv_id: ConvId,
        frames: Vec<SessionFrame>,
        actions: &mut Vec<CoreAction>,
    )
        requires
            old(self).wf(),
        ensures
            final(self).wf(),
            final(self).seen() == old(self).seen(),
            ({
                let (end, told) = frames_handled(old(self)@, conv_id, frame_states(frames@));
                &&& final(self)@ == end
                &&& appended(old(self)@, now_ms, old(actions)@, final(actions)@, told)
            }),
    {
        let ghost s = self@;
        let ghost whole = frames_handled(s, conv_id, frame_states(frames@));
        let ghost mut told: Seq<Deed> = Seq::empty();
        let mut left: Vec<SessionFrame> = frames;
        assert(told + whole.1 =~= whole.1);
        while left.len() > 0
            invariant
                self.wf(),
                self.seen() == old(self).seen(),
                s == old(self)@,
                self@.envelope_key == s.envelope_key,
                self@.message_key == s.message_key,
                appended(s, now_ms, old(actions)@, actions@, told),
                whole.0 == frames_handled(self@, conv_id, frame_states(left@)).0,
                whole.1 == told + frames_handled(self@, conv_id, frame_states(left@)).1,
            decreases left@.len(),
        {
            let ghost here = self@;
            let ghost before = actions@;
            let ghost states = frame_states(left@);
            let frame: SessionFrame = left.remove(0);
            proof {
                assert(states[0] == frame@);
                assert(frame_states(left@) =~= states.drop_first());
            }
            let ghost first = frame_handled(here, conv_id, frame@).1;
            match machine::handle_session_frame(conv_id, frame) {
                FrameStep::OpenExitConnection { conv_id, target, metadata } => {
                    actions.push(CoreAction::OpenExitConnection { conv_id, target, metadata });
                },
                FrameStep::WriteSession { conv_id, bytes } => {
                    actions.push(CoreAction::WriteSession { conv_id, bytes });
                },
                FrameStep::CloseSession { conv_id, reason, event } => {
                    self.sessions.remove(&conv_id);
                    assert(self@.sessions =~= here.sessions.remove(conv_id));
                    actions.push(CoreAction::CloseSession { conv_id, reason });
                    actions.push(CoreAction::EmitMetric(Metric::SessionClosed { conv_id }));
                    actions.push(CoreAction::EmitEvent(event));
                },
                FrameStep::KeepAlive => {},
            }
            proof {
                assert(self@ == frame_handled(here, conv_id, frame@).0);
                assert(appended(s, now_ms, before, actions@, first));
                lemma_appended_more(
                    s,
                    now_ms,
                    old(actions)@,
                    before,
                    actions@,
                    told,
                    first,
                );
                let rest = frames_handled(self@, conv_id, frame_states(left@)).1;
                assert(told + (first + rest) =~= (told + first) + rest);
                told = told + first;
            }
        }
        assert(told + Seq::<Deed>::empty() =~= told);
    }

    /// Takes a segment into its session: the segments that have to be sent in answer, and the
    /// frames that it completes.
    fn input_segment(&mut self, now_ms: u64, conv_id: ConvId, segment: &Vec<u8>) -> (result: Result<
        (Vec<Vec<u8>>, Vec<SessionFrame>),
        CoreError,
    >)
        requires
            old(self).wf(),
        ensures
            final(self).wf(),
            final(self).seen() == old(self).seen(),
            ({
                let ready = ensured(old(self)@, conv_id);
                let (fed, taken) = kcp::model::input(ready.sessions[conv_id], segment@);
                let (flushed, segments) = session::flushed_now(fed, now_ms);
                let (read, frames, malformed) = frames_in(flushed);
                match result {
                    Ok((answers, found)) => {
                        &&& taken is Ok
                        &&& malformed is None
                        &&& kcp::control::packets(answers@) == segments
                        &&& frame_states(found@) == frames
                        &&& final(self)@ == with_session(ready, conv_id, read)
                    },
                    Err(CoreError::Session(error)) => {
                        &&& taken matches Err(expected)
                        &&& error == expected
                        &&& final(self)@ == with_session(ready, conv_id, fed)
                    },
                    Err(CoreError::Wire(error)) => {
                        &&& taken is Ok
                        &&& malformed == Some(error)
                        &&& final(self)@ == with_session(ready, conv_id, read)
                    },
                    Err(_) => false,
                }
            }),
    {
        let ghost s = self@;
        let mut kcp: Kcp = self.take_session(conv_id);
        let taken = kcp.input(segment.as_slice());
        if let Err(error) = taken {
            let ghost fed = kcp@;
            self.put_session(conv_id, kcp);
            assert(self@.sessions =~= ensured(s, conv_id).sessions.insert(conv_id, fed));
            return Err(CoreError::Session(error));
        }
        let segments: Vec<Vec<u8>> = flush_now(&mut kcp, now_ms);
        let received = recv_frames(&mut kcp);
        let ghost read = kcp@;
        self.put_session(conv_id, kcp);
        assert(self@.sessions =~= ensured(s, conv_id).sessions.insert(conv_id, read));
        match received {
            Ok(frames) => Ok((segments, frames)),
            Err(error) => Err(CoreError::Wire(error)),
        }
    }

    /// Takes a segment into its session, answers it, and deals with the frames that it
    /// completes.
    fn handle_segment(
        &mut self,
        now_ms: u64,
        segment: &Vec<u8>,
        actions: &mut Vec<CoreAction>,
    ) -> (result: Result<(), CoreError>)
        requires
            old(self).wf(),
            segment@.len() >= KCP_OVERHEAD,
        ensures
            final(self).wf(),
            final(self).seen() == old(self).seen(),
            ({
                let done = segment_received(old(self)@, now_ms, segment@);
                &&& final(self)@ == done.state
                &&& result == done.result
                &&& appended(old(self)@, now_ms, old(actions)@, final(actions)@, done.deeds)
            }),
    {
        let ghost s = self@;
        proof {
            reveal(segment_received);
        }
        let conv_id: ConvId = get_conv(segment.as_slice());
        let (segments, frames) = match self.input_segment(now_ms, conv_id, segment) {
            Ok(taken) => taken,
            Err(error) => return Err(error),
        };
        let ghost kept = self@;
        let answered = self.send_segments(now_ms, &segments, actions);
        let ghost answers = segments_sent(kept, kcp::control::packets(segments@)).deeds;
        let ghost sent = self@;
        proof {
            lemma_same_keys(s, kept, now_ms, old(actions)@, actions@, answers);
        }
        if answered.is_err() {
            return answered;
        }
        let ghost between = actions@;
        let ghost told = frames_handled(sent, conv_id, frame_states(frames@)).1;
        self.handle_frames(now_ms, conv_id, frames, actions);
        proof {
            lemma_sent_keys(kept, kcp::control::packets(segments@));
            lemma_same_keys(s, sent, now_ms, between, actions@, told);
            lemma_appended_more(s, now_ms, old(actions)@, between, actions@, answers, told);
        }
        answered
    }

    /// Deals with a packet.
    fn handle_transport_packet(
        &mut self,
        now_ms: u64,
        envelope: Envelope,
        actions: &mut Vec<CoreAction>,
    ) -> (result: Result<(), CoreError>)
        requires
            old(self).wf(),
        ensures
            final(self).wf(),
            final(self).seen() == old(self).seen(),
            ({
                let done = envelope_received(old(self)@, now_ms, envelope@);
                &&& final(self)@ == done.state
                &&& result == done.result
                &&& appended(old(self)@, now_ms, old(actions)@, final(actions)@, done.deeds)
            }),
    {
        let ghost s = self@;
        if envelope.route_plan.len() > 0 {
            return Err(CoreError::NoRoute);
        }
        let segment: Vec<u8> = match machine::open_endpoint_message(
            &self.config.message_key,
            envelope.payload.as_slice(),
        ) {
            Ok(segment) => segment,
            Err(error) => return Err(error),
        };
        if segment.len() < KCP_OVERHEAD {
            return Err(CoreError::InvalidKcpSegment(segment.len()));
        }
        self.handle_segment(now_ms, &segment, actions)
    }

    /// Creates a session for a connection that has come in, and asks the other endpoint to
    /// open it.
    fn open_ingress(
        &mut self,
        now_ms: u64,
        target: Target,
        metadata: Metadata,
        actions: &mut Vec<CoreAction>,
    ) -> (result: Result<(), CoreError>)
        requires
            old(self).wf(),
        ensures
            final(self).wf(),
            final(self).seen() == old(self).seen(),
            ({
                let done = event_done(
                    old(self)@,
                    now_ms,
                    CoreEvent::IngressSessionRequested { target, metadata },
                    true,
                );
                &&& final(self)@ == done.state
                &&& result == done.result
                &&& appended(old(self)@, now_ms, old(actions)@, final(actions)@, done.deeds)
            }),
    {
        let ghost s = self@;
        let conv_id: ConvId = self.ids.allocate_conv_id();
        let kcp: Kcp = self.take_session(conv_id);
        self.put_session(conv_id, kcp);
        let ghost created = self@;
        proof {
            let next = HopState { next_conv_id: conv_id.wrapping_add(1), ..s };
            assert(created.sessions =~= ensured(next, conv_id).sessions);
            assert(created == ensured(next, conv_id));
        }
        actions.push(CoreAction::IngressSessionCreated { conv_id });
        actions.push(CoreAction::EmitMetric(Metric::IngressSessionCreated { conv_id }));
        actions.push(
            CoreAction::EmitEvent(CoreStructuredEvent::IngressSessionCreated { conv_id }),
        );
        let ghost between = actions@;
        let frame = SessionFrame::OpenConnection { target, metadata };
        let result = self.send_frame(now_ms, conv_id, &frame, actions);
        proof {
            let told = seq![
                Deed::SessionCreated { conv_id },
                Deed::Count(Metric::IngressSessionCreated { conv_id }),
                Deed::Report(CoreStructuredEvent::IngressSessionCreated { conv_id }),
            ];
            assert(appended(s, now_ms, old(actions)@, between, told));
            let sent = frame_sent(created, now_ms, conv_id, frame@).deeds;
            lemma_same_keys(s, created, now_ms, between, actions@, sent);
            lemma_appended_more(s, now_ms, old(actions)@, between, actions@, told, sent);
        }
        result
    }

    /// Tells the other endpoint that a session has ended, and forgets it.
    fn close_session(
        &mut self,
        now_ms: u64,
        conv_id: ConvId,
        reason: CloseReason,
        actions: &mut Vec<CoreAction>,
    ) -> (result: Result<(), CoreError>)
        requires
            old(self).wf(),
        ensures
            final(self).wf(),
            final(self).seen() == old(self).seen(),
            ({
                let done = event_done(
                    old(self)@,
                    now_ms,
                    CoreEvent::SessionClosed { conv_id, reason },
                    true,
                );
                &&& final(self)@ == done.state
                &&& result == done.result
                &&& appended(old(self)@, now_ms, old(actions)@, final(actions)@, done.deeds)
            }),
    {
        let ghost s = self@;
        let frame = SessionFrame::CloseConnection { reason };
        let result = self.send_frame(now_ms, conv_id, &frame, actions);
        if result.is_err() {
            return result;
        }
        let ghost sent = self@;
        let ghost between = actions@;
        self.sessions.remove(&conv_id);
        actions.push(CoreAction::EmitMetric(Metric::SessionClosed { conv_id }));
        actions.push(CoreAction::EmitEvent(CoreStructuredEvent::SessionClosed { conv_id }));
        proof {
            assert(self@.sessions =~= sent.sessions.remove(conv_id));
            assert(self@ == (HopState { sessions: sent.sessions.remove(conv_id), ..sent }));
            let done = frame_sent(s, now_ms, conv_id, frame@);
            assert(frame@ == (FrameState::CloseConnection { reason: reason@ }));
            assert(appended(s, now_ms, between, actions@, end_reported(conv_id)));
            lemma_appended_more(
                s,
                now_ms,
                old(actions)@,
                between,
                actions@,
                done.deeds,
                end_reported(conv_id),
            );
        }
        result
    }

    /// Takes an event.
    pub fn handle_event(
        &mut self,
        now_ms: u64,
        event: CoreEvent,
        actions: &mut Vec<CoreAction>,
    ) -> (result: Result<(), CoreError>)
        requires
            old(self).wf(),
        ensures
            final(self).wf(),
            ({
                let fresh = !(result matches Err(error) && error == CoreError::HopPacket(
                    HopPacketError::NonceReuse,
                ));
                let done = event_done(old(self)@, now_ms, event, fresh);
                &&& final(self)@ == done.state
                &&& result == done.result
                &&& appended(old(self)@, now_ms, old(actions)@, final(actions)@, done.deeds)
                &&& if event is TransportPacketReceived && machine::authentic(
                    now_ms,
                    old(self)@.envelope_key,
                    event->TransportPacketReceived_bytes@,
                ) {
                    nonce::checked(
                        nonce::rotated(old(self).seen(), now_ms),
                        event->TransportPacketReceived_bytes@.subrange(0, 16),
                        fresh,
                        final(self).seen(),
                    )
                } else {
                    final(self).seen() == old(self).seen()
                }
            }),
    {
        let ghost s = self@;
        match event {
            CoreEvent::IngressSessionRequested { target, metadata } => {
                self.open_ingress(now_ms, target, metadata, actions)
            },
            CoreEvent::ExitConnectionOpened { conv_id } => {
                let kcp: Kcp = self.take_session(conv_id);
                self.put_session(conv_id, kcp);
                assert(self@.sessions =~= ensured(s, conv_id).sessions);
                Ok(())
            },
            CoreEvent::ExitConnectionOpenFailed { conv_id, reason } => {
                let frame = SessionFrame::ResetConnection {
                    reason: CloseReason::Error(reason_text(&reason)),
                };
                self.send_frame(now_ms, conv_id, &frame, actions)
            },
            CoreEvent::SessionBytes { conv_id, bytes } => {
                let frame = SessionFrame::ConnectionBytes { bytes };
                self.send_frame(now_ms, conv_id, &frame, actions)
            },
            CoreEvent::SessionClosed { conv_id, reason } => {
                self.close_session(now_ms, conv_id, reason, actions)
            },
            CoreEvent::TransportChannelUpdated { channel_id, state } => {
                if self.channels.contains_key(&channel_id) {
                    self.channels.insert(channel_id, state);
                }
                actions.push(
                    CoreAction::EmitMetric(Metric::TransportChannelUpdated { channel_id, state }),
                );
                Ok(())
            },
            CoreEvent::TransportPacketReceived { bytes, .. } => {
                let envelope: Envelope = match machine::decode_hop_packet(
                    now_ms,
                    &self.config.envelope_key,
                    &mut self.filter,
                    bytes.as_slice(),
                ) {
                    Ok(envelope) => envelope,
                    Err(error) => {
                        assert(self@ == s);
                        return Err(error);
                    },
                };
                proof {
                    assert(self@ == s);
                    lemma_no_reuse(s, now_ms, envelope@);
                }
                self.handle_transport_packet(now_ms, envelope, actions)
            },
        }
    }

    /// Runs the timers of one session.
    fn poll_session(&mut self, now_ms: u64, conv_id: ConvId, actions: &mut Vec<CoreAction>) -> (
        result: Result<(), CoreError>)
        requires
            old(self).wf(),
            old(self)@.sessions.contains_key(conv_id),
        ensures
            final(self).wf(),
            final(self).seen() == old(self).seen(),
            ({
                let (run, segments) = session::polled(old(self)@.sessions[conv_id], now_ms);
                let done = segments_sent(with_session(old(self)@, conv_id, run), segments);
                &&& final(self)@ == done.state
                &&& result == done.result
                &&& appended(old(self)@, now_ms, old(actions)@, final(actions)@, done.deeds)
            }),
    {
        let ghost s = self@;
        let mut kcp: Kcp = self.take_session(conv_id);
        proof {
            reveal(session::polled);
            kcp::laws::lemma_update_frame(kcp@, session::kcp_time(now_ms));
        }
        let _ = kcp.update(session::kcp_clock(now_ms));
        let segments: Vec<Vec<u8>> = kcp.take_output();
        let ghost run = kcp@;
        self.put_session(conv_id, kcp);
        let ghost next = self@;
        proof {
            assert(next.sessions =~= s.sessions.insert(conv_id, run));
            assert(next == with_session(s, conv_id, run));
        }
        let result = self.send_segments(now_ms, &segments, actions);
        proof {
            let deeds = segments_sent(next, kcp::control::packets(segments@)).deeds;
            lemma_same_keys(s, next, now_ms, old(actions)@, actions@, deeds);
        }
        result
    }

    /// Runs the timers of all sessions.
    pub fn poll(&mut self, now_ms: u64, actions: &mut Vec<CoreAction>) -> (result: Result<
        (),
        CoreError,
    >)
        requires
            old(self).wf(),
        ensures
            final(self).wf(),
            final(self).seen() == old(self).seen(),
            ({
                let done = sessions_polled(
                    old(self)@,
                    now_ms,
                    ordered::ascending(old(self)@.sessions.dom()),
                );
                &&& final(self)@ == done.state
                &&& result == done.result
                &&& appended(old(self)@, now_ms, old(actions)@, final(actions)@, done.deeds)
            }),
    {
        let ghost s = self@;
        let convs: Vec<ConvId> = ordered::sorted_keys(&self.sessions);
        assert(self@.sessions.dom() =~= self.sessions@.dom());
        let ghost all = convs@;
        let ghost whole = sessions_polled(s, now_ms, all);
        let ghost mut sent: Seq<Deed> = Seq::empty();
        let mut i: usize = 0;
        assert(all.skip(0) =~= all);
        assert(sent + whole.deeds =~= whole.deeds);
        while i < convs.len()
            invariant
                self.wf(),
                self.seen() == old(self).seen(),
                s == old(self)@,
                all == convs@,
                all == ordered::ascending(s.sessions.dom()),
                whole == sessions_polled(s, now_ms, all),
                ordered::is_ascending(all, s.sessions.dom()),
                self@.sessions.dom() == s.sessions.dom(),
                self@.envelope_key == s.envelope_key,
                self@.message_key == s.message_key,
                i <= all.len(),
                appended(s, now_ms, old(actions)@, actions@, sent),
                ({
                    let rest = sessions_polled(self@, now_ms, all.skip(i as int));
                    &&& whole.state == rest.state
                    &&& whole.result == rest.result
                    &&& whole.deeds == sent + rest.deeds
                }),
            decreases all.len() - i,
        {
            let conv_id: ConvId = convs[i];
            let ghost here = self@;
            let ghost before = actions@;
            let ghost left = all.skip(i as int);
            proof {
                assert(left[0] == conv_id);
                assert(left.drop_first() =~= all.skip(i + 1));
                assert(all.contains(conv_id));
                assert(here.sessions.dom().contains(conv_id));
            }
            let ghost (run, segments) = session::polled(here.sessions[conv_id], now_ms);
            let ghost next = with_session(here, conv_id, run);
            let ghost done = segments_sent(next, segments);
            let ghost deeds = done.deeds;
            assert(next.sessions.dom() =~= s.sessions.dom());
            proof {
                lemma_sent_keys(next, segments);
            }
            let result = self.poll_session(now_ms, conv_id, actions);
            proof {
                lemma_same_keys(s, here, now_ms, before, actions@, deeds);
                lemma_appended_more(s, now_ms, old(actions)@, before, actions@, sent, deeds);
            }
            if let Err(error) = result {
                return Err(error);
            }
            proof {
                let rest = sessions_polled(done.state, now_ms, left.drop_first()).deeds;
                assert(sent + (deeds + rest) =~= (sent + deeds) + rest);
                sent = sent + deeds;
            }
            i = i + 1;
        }
        assert(all.skip(i as int) =~= Seq::<ConvId>::empty());
        assert(sent + Seq::<Deed>::empty() =~= sent);
        Ok(())
    }

    /// When the endpoint wants to be polled.
    pub fn next_deadline(&self, now_ms: u64) -> (deadline: Option<u64>)
        requires
            self.wf(),
        ensures
            match deadline {
                Some(at) => {
                    &&& exists|conv_id: ConvId| #[trigger]
                        self@.sessions.contains_key(conv_id) && session_due(
                            self@.sessions[conv_id],
                            now_ms,
                        ) == Some(at)
                    &&& forall|conv_id: ConvId| #[trigger]
                        self@.sessions.contains_key(conv_id) ==> match session_due(
                            self@.sessions[conv_id],
                            now_ms,
                        ) {
                            Some(other) => at <= other,
                            None => true,
                        }
                },
                None => forall|conv_id: ConvId| #[trigger]
                    self@.sessions.contains_key(conv_id) ==> session_due(
                        self@.sessions[conv_id],
                        now_ms,
                    ) is None,
            },
    {
        let convs: Vec<ConvId> = ordered::sorted_keys(&self.sessions);
        assert(self@.sessions.dom() =~= self.sessions@.dom());
        let mut best: Option<u64> = None;
        let mut i: usize = 0;
        while i < convs.len()
            invariant
                ordered::is_ascending(convs@, self@.sessions.dom()),
                self@.sessions.dom() == self.sessions@.dom(),
                i <= convs@.len(),
                match best {
                    Some(at) => {
                        &&& exists|j: int|
                            0 <= j < i && session_due(
                                self@.sessions[#[trigger] convs@[j]],
                                now_ms,
                            ) == Some(at)
                        &&& forall|j: int|
                            0 <= j < i ==> match session_due(
                                self@.sessions[#[trigger] convs@[j]],
                                now_ms,
                            ) {
                                Some(other) => at <= other,
                                None => true,
                            }
                    },
                    None => forall|j: int|
                        0 <= j < i ==> session_due(
                            self@.sessions[#[trigger] convs@[j]],
                            now_ms,
                        ) is None,
                },
            decreases convs@.len() - i,
        {
            let conv_id: ConvId = convs[i];
            assert(convs@.contains(conv_id));
            assert(self@.sessions.dom().contains(conv_id));
            if let Some(kcp) = self.sessions.get(&conv_id) {
                assert(self@.sessions[conv_id] == kcp@);
                if !kcp.is_idle() {
                    let at: u64 = now_ms.saturating_add(
                        kcp.check(session::kcp_clock(now_ms)) as u64,
                    );
                    assert(session_due(self@.sessions[convs@[i as int]], now_ms) == Some(at));
                    match best {
                        Some(other) => {
                            if at < other {
                                best = Some(at);
                            }
                        },
                        None => {
                            best = Some(at);
                        },
                    }
                }
            }
            i = i + 1;
        }
        proof {
            assert forall|conv_id: ConvId| #[trigger]
                self@.sessions.contains_key(conv_id) implies exists|j: int|
                0 <= j < convs@.len() && #[trigger] convs@[j] == conv_id by {
                assert(self@.sessions.dom().contains(conv_id));
                assert(convs@.contains(conv_id));
            }
            if let Some(at) = best {
                let j = choose|j: int|
                    0 <= j < convs@.len() && session_due(
                        self@.sessions[#[trigger] convs@[j]],
                        now_ms,
                    ) == Some(at);
                assert(convs@.contains(convs@[j]));
                assert(self@.sessions.dom().contains(convs@[j]));
                assert(self@.sessions.contains_key(convs@[j]));
            }
        }
        best
    }

    pub fn channel_count(&self) -> (count: usize)
        ensures
            count == self@.channels.len(),
    {
        self.channels.len()
    }
}

/// Behind its first check no packet is refused for its nonce.
proof fn lemma_no_reuse(s: HopState, now_ms: u64, e: EnvelopeState)
    ensures
        envelope_received(s, now_ms, e).result != Err::<(), CoreError>(
            CoreError::HopPacket(HopPacketError::NonceReuse),
        ),
{
    reveal(segment_received);
    if let Some(segment) = machine::message_opened(s.message_key, e.payload) {
        let conv_id = kcp::model::conv_of(segment);
        let (fed, _taken) = kcp::model::input(ensured(s, conv_id).sessions[conv_id], segment);
        let (flushed, segments) = session::flushed_now(fed, now_ms);
        let kept = with_session(ensured(s, conv_id), conv_id, frames_in(flushed).0);
        lemma_send_errors(kept, segments);
    }
}

proof fn lemma_send_errors(s: HopState, segments: Seq<Seq<u8>>)
    ensures
        segments_sent(s, segments).result matches Err(error) ==> error == CoreError::NoRoute
            || error is Wire,
    decreases segments.len(),
{
    if segments.len() > 0 {
        lemma_send_errors(segment_sent(s, segments[0]).state, segments.drop_first());
    }
}

/// Sending takes nonces, and changes nothing else.
pub proof fn lemma_sent_keys(s: HopState, segments: Seq<Seq<u8>>)
    ensures
        ({
            let t = segments_sent(s, segments).state;
            t == (HopState {
                envelope_random: t.envelope_random,
                message_random: t.message_random,
                ..s
            })
        }),
    decreases segments.len(),
{
    if segments.len() > 0 {
        lemma_sent_keys(segment_sent(s, segments[0]).state, segments.drop_first());
    }
}

/// What is sealed depends on the keys alone.
proof fn lemma_same_keys(
    s: HopState,
    t: HopState,
    now_ms: u64,
    before: Seq<CoreAction>,
    after: Seq<CoreAction>,
    deeds: Seq<Deed>,
)
    requires
        s.envelope_key == t.envelope_key,
        s.message_key == t.message_key,
        appended(t, now_ms, before, after, deeds),
    ensures
        appended(s, now_ms, before, after, deeds),
{
    assert forall|i: int| before.len() <= i < after.len() implies done_as(
        s,
        now_ms,
        #[trigger] after[i],
        deeds[i - before.len()],
    ) by {
        assert(done_as(t, now_ms, after[i], deeds[i - before.len()]));
    }
}

// ---------------------------------------------------------------------------
// Laws
// ---------------------------------------------------------------------------

/// A packet that carries a segment brings it to the other endpoint: near the time at which it
/// was sealed it opens, unless its tag happens to match in another window too, to an envelope
/// with the plan, whose message opens to the segment.
pub proof fn law_segments_arrive(
    now_ms: u64,
    then_ms: u64,
    envelope_key: Seq<u8>,
    message_key: Seq<u8>,
    bytes: Seq<u8>,
    route_plan: Seq<ChannelId>,
    nonces: Nonces,
    segment: Seq<u8>,
)
    requires
        carries(now_ms, envelope_key, message_key, bytes, route_plan, nonces, segment),
        -0x4000 <= then_ms - now_ms <= 0x4000,
        packet::window_bytes(then_ms) == packet::window_bytes(now_ms) || packet::opened_in(
            then_ms,
            envelope_key,
            bytes,
        ) is None,
        packet::HEADER_SIZE <= bytes.len() <= packet::MAX_PACKET_SIZE,
        42 + 8 * route_plan.len() + segment.len() <= MAX_ENVELOPE_SIZE,
    ensures
        machine::envelope_in(then_ms, envelope_key, bytes, true) matches Ok(e)
            && e.route_plan == route_plan && machine::message_opened(message_key, e.payload)
            == Some(segment),
{
    reveal(carries);
    let message = machine::sealed_message(nonces.message, message_key, segment);
    let e = EnvelopeState { route_plan, payload: message };
    let payload = wire::encode_envelope(e)->Ok_0;
    wire::law_hop_envelope_roundtrip(e);
    assert(packet::opened(then_ms, envelope_key, bytes) == Some(payload));
}

/// A session that the shell has closed is gone, unless its last frame could not be sent.
pub proof fn law_closed_session_is_gone(
    s: HopState,
    now_ms: u64,
    conv_id: ConvId,
    reason: CloseReason,
)
    ensures
        ({
            let done = event_done(
                s,
                now_ms,
                CoreEvent::SessionClosed { conv_id, reason },
                true,
            );
            &&& done.result is Ok ==> !done.state.sessions.contains_key(conv_id)
            &&& done.result is Err ==> done.state.sessions.contains_key(conv_id)
            &&& forall|other: ConvId|
                other != conv_id ==> done.state.sessions.contains_key(other)
                    == #[trigger] s.sessions.contains_key(other)
        }),
{
    reveal(frame_sent);
    let ready = ensured(s, conv_id);
    let frame = FrameState::CloseConnection { reason: reason@ };
    if let Ok(bytes) = wire::encode_frame(frame) {
        let queued = kcp::model::send(ready.sessions[conv_id], bytes).0;
        let (flushed, segments) = session::flushed_now(queued, now_ms);
        lemma_sent_keys(with_session(ready, conv_id, flushed), segments);
    }
}

} // verus!
