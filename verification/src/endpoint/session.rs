//! One session of an endpoint: a KCP conversation and its phase.
use vstd::prelude::*;

use crate::kcp;
use crate::kcp::{Kcp, KcpParams};
use crate::machine::{CloseReason, ConvId};
use crate::wire;
use crate::wire::SessionMessage;

verus! {

#[derive(Debug, Clone, Copy, PartialEq, Eq, Structural)]
pub enum SessionPhase {
    PendingRemote,
    Open,
    ClosingLocal,
    ClosingRemote,
}

/// The state of a session.
#[verifier::ext_equal]
pub struct SessionState {
    pub kcp: kcp::model::KcpState,
    pub phase: SessionPhase,
    /// The sender that the session is bound to.
    pub peer_seq: Option<u64>,
    pub pending_close: Option<CloseReason>,
    pub close_queued: bool,
    pub close_deadline_at: Option<u64>,
}

/// A session without traffic.
pub open spec fn new_session(conv: u64, params: KcpParams, phase: SessionPhase) -> SessionState {
    SessionState {
        kcp: kcp::model::init(conv, params),
        phase,
        peer_seq: None,
        pending_close: None,
        close_queued: false,
        close_deadline_at: None,
    }
}

/// The KCP clock.
pub open spec fn kcp_time(elapsed_ms: u64) -> u32 {
    (elapsed_ms % 0x1_0000_0000) as u32
}

/// Takes the finished packets out of a conversation.
pub open spec fn emptied(k: kcp::model::KcpState) -> (kcp::model::KcpState, Seq<Seq<u8>>) {
    (kcp::model::KcpState { output: Seq::empty(), ..k }, k.output)
}

/// Runs the timers, sends whatever can be sent, and takes the packets out.
#[verifier::opaque]
pub open spec fn flushed_now(
    k: kcp::model::KcpState,
    elapsed_ms: u64,
) -> (kcp::model::KcpState, Seq<Seq<u8>>) {
    emptied(kcp::model::flushed(kcp::model::update(k, kcp_time(elapsed_ms))))
}

/// Runs the timers and takes the packets out.
#[verifier::opaque]
pub open spec fn polled(
    k: kcp::model::KcpState,
    elapsed_ms: u64,
) -> (kcp::model::KcpState, Seq<Seq<u8>>) {
    emptied(kcp::model::update(k, kcp_time(elapsed_ms)))
}

/// Sends a message at once.
#[verifier::opaque]
pub open spec fn message_sent(
    k: kcp::model::KcpState,
    elapsed_ms: u64,
    message: wire::SessionMessageState,
) -> (kcp::model::KcpState, Seq<Seq<u8>>) {
    flushed_now(kcp::model::send(k, wire::encode_session(message)).0, elapsed_ms)
}

/// The messages that are complete, in order.
pub open spec fn drained(k: kcp::model::KcpState) -> (kcp::model::KcpState, Seq<Seq<u8>>)
    decreases k.rcv_queue.len() + k.rcv_buf.len(),
{
    match kcp::model::peek(k) {
        Err(_) => (k, Seq::empty()),
        Ok(message) => {
            proof {
                kcp::laws::lemma_after_recv_shrinks(k);
            }
            let (end, rest) = drained(kcp::model::after_recv(k));
            (end, seq![message] + rest)
        },
    }
}

/// What a packet of the peer brings about.
#[verifier::ext_equal]
pub struct Taken {
    pub kcp: kcp::model::KcpState,
    /// What has to be sent at once.
    pub packets: Seq<Seq<u8>>,
    /// The messages that are complete now.
    pub messages: Seq<Seq<u8>>,
}

#[verifier::opaque]
pub open spec fn packet_taken(
    k: kcp::model::KcpState,
    elapsed_ms: u64,
    packet: Seq<u8>,
) -> Taken {
    let (flushed, packets) = flushed_now(
        kcp::model::input_at(k, kcp_time(elapsed_ms), packet).0,
        elapsed_ms,
    );
    let (end, messages) = drained(flushed);
    Taken { kcp: end, packets, messages }
}

/// The packet consists of segments of this conversation.
#[verifier::opaque]
pub open spec fn packet_parses(
    k: kcp::model::KcpState,
    elapsed_ms: u64,
    packet: Seq<u8>,
) -> bool {
    kcp::model::input_at(k, kcp_time(elapsed_ms), packet).1 is Ok
}

/// How many segments a session message takes.
pub open spec fn message_segments(params: KcpParams, len: nat) -> int {
    kcp::model::fragment_count(len, params.mtu - 28)
}

/// No session has more segments under way: those of the send window, and the rest of a close
/// message that does not fit one segment.
pub open spec fn max_pending(params: KcpParams) -> int {
    params.send_window + message_segments(params, 2) - 1
}

/// The conversation has the limits of the endpoint and holds no finished packet.
pub open spec fn conversation_ok(params: KcpParams, conv: u64, k: kcp::model::KcpState) -> bool {
    &&& kcp::model::well_formed(k)
    &&& k.conv == conv
    &&& k.mtu == params.mtu
    &&& k.rcv_wnd == params.receive_window
    &&& kcp::laws::pending(k) <= max_pending(params)
    &&& k.output.len() == 0
}

pub open spec fn session_ok(params: KcpParams, conv: u64, s: SessionState) -> bool {
    &&& conversation_ok(params, conv, s.kcp)
    &&& s.phase == SessionPhase::ClosingLocal ==> s.pending_close is Some
        && s.close_deadline_at is Some
}

/// Every packet fits the KCP transmission unit.
pub open spec fn packets_fit(params: KcpParams, packets: Seq<Seq<u8>>) -> bool {
    forall|i: int| 0 <= i < packets.len() ==> (#[trigger] packets[i]).len() <= params.mtu
}

/// When the session needs attention.
pub open spec fn session_deadline(s: SessionState, elapsed_ms: u64) -> u64 {
    let timer = if kcp::laws::pending(s.kcp) != 0 {
        let at = elapsed_ms + kcp::model::check(s.kcp, kcp_time(elapsed_ms));
        if at <= u64::MAX {
            at as u64
        } else {
            u64::MAX
        }
    } else {
        u64::MAX
    };
    match s.close_deadline_at {
        Some(at) => if at < timer {
            at
        } else {
            timer
        },
        None => timer,
    }
}

pub fn kcp_clock(elapsed_ms: u64) -> (current: u32)
    ensures
        current == kcp_time(elapsed_ms),
{
    (elapsed_ms % 0x1_0000_0000) as u32
}

pub struct EndpointSession {
    pub kcp: Kcp,
    pub phase: SessionPhase,
    pub peer_seq: Option<u64>,
    pub pending_close: Option<CloseReason>,
    pub close_queued: bool,
    pub close_deadline_at: Option<u64>,
}

impl View for EndpointSession {
    type V = SessionState;

    open spec fn view(&self) -> SessionState {
        SessionState {
            kcp: self.kcp@,
            phase: self.phase,
            peer_seq: self.peer_seq,
            pending_close: self.pending_close,
            close_queued: self.close_queued,
            close_deadline_at: self.close_deadline_at,
        }
    }
}

pub struct SessionOutput {
    pub messages: Vec<Vec<u8>>,
    pub packets: Vec<Vec<u8>>,
}

/// Whether all messages are well formed.
fn all_encoded(messages: &Vec<Vec<u8>>) -> (yes: bool)
    ensures
        yes == messages_decode(kcp::control::packets(messages@)),
{
    let mut i: usize = 0;
    while i < messages.len()
        invariant
            i <= messages@.len(),
            forall|j: int|
                0 <= j < i ==> wire::decode_session(
                    #[trigger] kcp::control::packets(messages@)[j],
                ) is Some,
        decreases messages@.len() - i,
    {
        if !SessionMessage::is_encoded(messages[i].as_slice()) {
            assert(wire::decode_session(kcp::control::packets(messages@)[i as int]) is None);
            return false;
        }
        i = i + 1;
    }
    true
}

impl EndpointSession {
    pub fn new(conv_id: ConvId, params: KcpParams, phase: SessionPhase) -> (session: Self)
        requires
            28 < params.mtu <= 65536,
            phase != SessionPhase::ClosingLocal,
        ensures
            session@ == new_session(conv_id, params, phase),
            session_ok(params, conv_id, session@),
    {
        proof {
            lemma_message_segments(params, 2);
        }
        Self {
            kcp: Kcp::new(conv_id, params),
            phase,
            peer_seq: None,
            pending_close: None,
            close_queued: false,
            close_deadline_at: None,
        }
    }

    /// A session in the same state.
    pub fn duplicate(&self) -> (copy: Self)
        ensures
            copy@ == self@,
    {
        Self {
            kcp: self.kcp.duplicate(),
            phase: self.phase,
            peer_seq: self.peer_seq,
            pending_close: self.pending_close,
            close_queued: self.close_queued,
            close_deadline_at: self.close_deadline_at,
        }
    }

    /// Sends a message that the queue has room for.
    pub(crate) fn send_message(
        &mut self,
        Ghost(params): Ghost<KcpParams>,
        Ghost(conv): Ghost<u64>,
        elapsed_ms: u64,
        message: &SessionMessage,
    ) -> (packets: Vec<Vec<u8>>)
        requires
            session_ok(params, conv, old(self)@),
            message_segments(params, wire::encode_session(message@).len()) < params.receive_window,
            message_segments(params, wire::encode_session(message@).len()) < 256,
            kcp::laws::pending(old(self)@.kcp) + message_segments(
                params,
                wire::encode_session(message@).len(),
            ) <= max_pending(params),
        ensures
            final(self)@ == (SessionState {
                kcp: message_sent(old(self)@.kcp, elapsed_ms, message@).0,
                ..old(self)@
            }),
            kcp::control::packets(packets@) == message_sent(
                old(self)@.kcp,
                elapsed_ms,
                message@,
            ).1,
            session_ok(params, conv, final(self)@),
            kcp::laws::pending(final(self)@.kcp) == kcp::laws::pending(old(self)@.kcp)
                + message_segments(params, wire::encode_session(message@).len()),
            packets_fit(params, kcp::control::packets(packets@)),
    {
        let bytes = message.encode();
        let ghost k = self.kcp@;
        let _ = self.kcp.send(bytes.as_slice());
        proof {
            kcp::laws::lemma_send_frame(k, bytes@);
            reveal(message_sent);
        }
        self.flush_now(Ghost(params), Ghost(conv), elapsed_ms)
    }

    /// Takes in a packet of the peer.
    pub(crate) fn input_packet(
        &mut self,
        Ghost(params): Ghost<KcpParams>,
        Ghost(conv): Ghost<u64>,
        elapsed_ms: u64,
        packet: &Vec<u8>,
    ) -> (output: SessionOutput)
        requires
            session_ok(params, conv, old(self)@),
            packet_parses(old(self)@.kcp, elapsed_ms, packet@),
        ensures
            ({
                let taken = packet_taken(old(self)@.kcp, elapsed_ms, packet@);
                &&& final(self)@ == (SessionState { kcp: taken.kcp, ..old(self)@ })
                &&& kcp::control::packets(output.packets@) == taken.packets
                &&& kcp::control::packets(output.messages@) == taken.messages
            }),
            session_ok(params, conv, final(self)@),
            packets_fit(params, kcp::control::packets(output.packets@)),
    {
        let ghost k = self.kcp@;
        proof {
            reveal(packet_parses);
            reveal(packet_taken);
            kcp::laws::lemma_input_frame(
                kcp::model::KcpState { current: kcp_time(elapsed_ms), ..k },
                packet@,
            );
        }
        let _ = self.kcp.input_at(kcp_clock(elapsed_ms), packet.as_slice());
        let packets = self.flush_now(Ghost(params), Ghost(conv), elapsed_ms);
        let messages = self.recv_messages(Ghost(params), Ghost(conv));
        SessionOutput { messages, packets }
    }

    /// Whether the packet consists of segments of this conversation, and all messages that
    /// it completes are well formed.
    pub(crate) fn can_take(
        &self,
        Ghost(params): Ghost<KcpParams>,
        Ghost(conv): Ghost<u64>,
        elapsed_ms: u64,
        packet: &Vec<u8>,
    ) -> (yes: bool)
        requires
            session_ok(params, conv, self@),
        ensures
            yes == (packet_parses(self@.kcp, elapsed_ms, packet@) && messages_decode(
                packet_taken(self@.kcp, elapsed_ms, packet@).messages,
            )),
    {
        let mut probe = self.kcp.duplicate();
        proof {
            reveal(packet_parses);
        }
        if probe.input_at(kcp_clock(elapsed_ms), packet.as_slice()).is_err() {
            return false;
        }
        let mut copy = self.duplicate();
        let output = copy.input_packet(Ghost(params), Ghost(conv), elapsed_ms, packet);
        all_encoded(&output.messages)
    }

    /// Runs the timers.
    pub(crate) fn poll(
        &mut self,
        Ghost(params): Ghost<KcpParams>,
        Ghost(conv): Ghost<u64>,
        elapsed_ms: u64,
    ) -> (packets: Vec<Vec<u8>>)
        requires
            session_ok(params, conv, old(self)@),
        ensures
            final(self)@ == (SessionState {
                kcp: polled(old(self)@.kcp, elapsed_ms).0,
                ..old(self)@
            }),
            kcp::control::packets(packets@) == polled(old(self)@.kcp, elapsed_ms).1,
            session_ok(params, conv, final(self)@),
            packets_fit(params, kcp::control::packets(packets@)),
    {
        proof {
            reveal(polled);
            kcp::laws::lemma_update_frame(self.kcp@, kcp_time(elapsed_ms));
        }
        let _ = self.kcp.update(kcp_clock(elapsed_ms));
        self.kcp.take_output()
    }

    fn flush_now(
        &mut self,
        Ghost(params): Ghost<KcpParams>,
        Ghost(conv): Ghost<u64>,
        elapsed_ms: u64,
    ) -> (packets: Vec<Vec<u8>>)
        requires
            session_ok(params, conv, old(self)@),
        ensures
            final(self)@ == (SessionState {
                kcp: flushed_now(old(self)@.kcp, elapsed_ms).0,
                ..old(self)@
            }),
            kcp::control::packets(packets@) == flushed_now(old(self)@.kcp, elapsed_ms).1,
            session_ok(params, conv, final(self)@),
            kcp::laws::pending(final(self)@.kcp) == kcp::laws::pending(old(self)@.kcp),
            packets_fit(params, kcp::control::packets(packets@)),
    {
        proof {
            reveal(flushed_now);
            kcp::laws::lemma_update_frame(self.kcp@, kcp_time(elapsed_ms));
            let updated = kcp::model::update(self.kcp@, kcp_time(elapsed_ms));
            kcp::laws::lemma_flushed_frame(updated);
            kcp::laws::lemma_flushed_well_formed(updated);
        }
        let _ = self.kcp.update(kcp_clock(elapsed_ms));
        let _ = self.kcp.flush();
        self.kcp.take_output()
    }

    pub(crate) fn next_deadline(
        &self,
        Ghost(params): Ghost<KcpParams>,
        Ghost(conv): Ghost<u64>,
        elapsed_ms: u64,
    ) -> (deadline: u64)
        requires
            session_ok(params, conv, self@),
        ensures
            deadline == session_deadline(self@, elapsed_ms),
    {
        let mut deadline: u64 = u64::MAX;
        if self.kcp.wait_snd() != 0 {
            deadline = elapsed_ms.saturating_add(self.kcp.check(kcp_clock(elapsed_ms)) as u64);
        }
        if let Some(close_deadline) = self.close_deadline_at {
            if close_deadline < deadline {
                deadline = close_deadline;
            }
        }
        deadline
    }

    fn recv_messages(
        &mut self,
        Ghost(params): Ghost<KcpParams>,
        Ghost(conv): Ghost<u64>,
    ) -> (messages: Vec<Vec<u8>>)
        requires
            session_ok(params, conv, old(self)@),
        ensures
            final(self)@ == (SessionState { kcp: drained(old(self)@.kcp).0, ..old(self)@ }),
            kcp::control::packets(messages@) == drained(old(self)@.kcp).1,
            session_ok(params, conv, final(self)@),
    {
        let mut messages: Vec<Vec<u8>> = Vec::new();
        let ghost whole = drained(self.kcp@);
        assert(kcp::control::packets(messages@) + whole.1 =~= whole.1);
        loop
            invariant_except_break
                session_ok(params, conv, self@),
                self@ == (SessionState { kcp: self@.kcp, ..old(self)@ }),
                whole.0 == drained(self@.kcp).0,
                whole.1 == kcp::control::packets(messages@) + drained(self@.kcp).1,
            ensures
                session_ok(params, conv, self@),
                self@ == (SessionState { kcp: whole.0, ..old(self)@ }),
                whole.1 == kcp::control::packets(messages@),
            decreases self@.kcp.rcv_queue.len() + self@.kcp.rcv_buf.len(),
        {
            let ghost k = self.kcp@;
            let ghost done = kcp::control::packets(messages@);
            match self.kcp.recv_message() {
                Ok(message) => {
                    proof {
                        kcp::laws::lemma_after_recv_frame(k);
                        kcp::laws::lemma_after_recv_shrinks(k);
                        kcp::control::lemma_packets_push(messages@, message);
                        let rest = drained(self.kcp@).1;
                        assert(done + (seq![message@] + rest) =~= done.push(message@) + rest);
                    }
                    messages.push(message);
                },
                Err(_) => {
                    assert(done + Seq::<Seq<u8>>::empty() =~= done);
                    break;
                },
            }
        }
        messages
    }
}

/// All messages are well formed.
pub open spec fn messages_decode(messages: Seq<Seq<u8>>) -> bool {
    forall|i: int|
        0 <= i < messages.len() ==> wire::decode_session(#[trigger] messages[i]) is Some
}

/// A conversation that a message has been handed to has something to send.
pub proof fn lemma_message_segments(params: KcpParams, len: nat)
    requires
        28 < params.mtu,
        len >= 1,
    ensures
        1 <= message_segments(params, len) <= len,
{
    kcp::laws::lemma_div_bound(len - 1, params.mtu - 28);
}

} // verus!
