//! The envelope that travels from hop to hop, and the messages inside it.
use vstd::prelude::*;

use crate::machine::{ChannelId, CloseReason};
use crate::octets;

verus! {

pub const ENVELOPE_FIXED_OVERHEAD: usize = 16;

pub const CHANNEL_ID_SIZE: usize = 2;

/// Route plans are counted in six bits.
pub const MAX_ROUTE_PLAN_LEN: usize = 63;

pub const FLAG_KCP: u8 = 1;

pub const FLAG_KEEP_ALIVE: u8 = 2;

pub const FLAG_ROUTE_REPLY: u8 = 4;

/// The reply depth is stored above the three type flags.
pub const REPLY_DEPTH_UNIT: u8 = 8;

pub const MAX_REPLY_DEPTH: u8 = 3;

/// The channels that a packet still has to take.
pub type RoutePlan = Vec<ChannelId>;

#[derive(Debug, Clone, Copy, PartialEq, Eq, Structural)]
pub struct EnvelopeStamp {
    pub time: u32,
    pub seq_id: u64,
    pub seq_no: u64,
}

#[derive(Debug, PartialEq, Eq)]
pub struct Envelope {
    pub time: u32,
    pub seq_id: u64,
    pub seq_no: u64,
    pub route_plan: RoutePlan,
    pub payload: Vec<u8>,
    pub padding_len: u8,
}

/// The contents of an envelope.
#[verifier::ext_equal]
pub struct EnvelopeState {
    pub time: u32,
    pub seq_id: u64,
    pub seq_no: u64,
    pub route_plan: Seq<u16>,
    pub payload: Seq<u8>,
    pub padding_len: u8,
}

impl View for Envelope {
    type V = EnvelopeState;

    open spec fn view(&self) -> EnvelopeState {
        EnvelopeState {
            time: self.time,
            seq_id: self.seq_id,
            seq_no: self.seq_no,
            route_plan: self.route_plan@,
            payload: self.payload@,
            padding_len: self.padding_len,
        }
    }
}

#[derive(Debug, PartialEq, Eq)]
pub enum EndpointMessage {
    KcpPacket { reply_depth: u8, packet: Vec<u8> },
    KeepAlive { reply_depth: u8 },
    RouteReply { reply_depth: u8, received_seq_id: u64, received_seq_no: u64 },
}

/// The contents of an endpoint message.
#[verifier::ext_equal]
pub enum EndpointMessageState {
    KcpPacket { reply_depth: u8, packet: Seq<u8> },
    KeepAlive { reply_depth: u8 },
    RouteReply { reply_depth: u8, received_seq_id: u64, received_seq_no: u64 },
}

impl View for EndpointMessage {
    type V = EndpointMessageState;

    open spec fn view(&self) -> EndpointMessageState {
        match self {
            EndpointMessage::KcpPacket { reply_depth, packet } => EndpointMessageState::KcpPacket {
                reply_depth: *reply_depth,
                packet: packet@,
            },
            EndpointMessage::KeepAlive { reply_depth } => EndpointMessageState::KeepAlive {
                reply_depth: *reply_depth,
            },
            EndpointMessage::RouteReply {
                reply_depth,
                received_seq_id,
                received_seq_no,
            } => EndpointMessageState::RouteReply {
                reply_depth: *reply_depth,
                received_seq_id: *received_seq_id,
                received_seq_no: *received_seq_no,
            },
        }
    }
}

#[derive(Debug, PartialEq, Eq)]
pub enum SessionMessage {
    Open,
    Data { bytes: Vec<u8> },
    Close { reason: CloseReason },
}

/// The contents of a session message.
#[verifier::ext_equal]
pub enum SessionMessageState {
    Open,
    Data { bytes: Seq<u8> },
    Close { reason: CloseReason },
}

impl View for SessionMessage {
    type V = SessionMessageState;

    open spec fn view(&self) -> SessionMessageState {
        match self {
            SessionMessage::Open => SessionMessageState::Open,
            SessionMessage::Data { bytes } => SessionMessageState::Data { bytes: bytes@ },
            SessionMessage::Close { reason } => SessionMessageState::Close { reason: *reason },
        }
    }
}

#[derive(Debug, Clone, Copy, PartialEq, Eq, Structural)]
pub struct WireError;

// ---------------------------------------------------------------------------
// Formats
// ---------------------------------------------------------------------------

/// `n` zero bytes.
pub open spec fn zeros(n: nat) -> Seq<u8> {
    Seq::new(n, |i: int| 0u8)
}

/// The first header word: the low 26 bits of the tick above the length of the route plan.
pub open spec fn time_and_route(time: u32, plan_len: nat) -> nat {
    ((time % 0x400_0000) * 64 + plan_len) as nat
}

/// The 16 header bytes.
pub open spec fn header_bytes(stamp: EnvelopeStamp, plan_len: nat) -> Seq<u8> {
    octets::le_bytes(time_and_route(stamp.time, plan_len), 4) + octets::le_bytes(
        stamp.seq_id as nat,
        6,
    ) + octets::le_bytes(stamp.seq_no as nat, 6)
}

/// Two bytes per channel, in order.
pub open spec fn plan_bytes(plan: Seq<u16>) -> Seq<u8>
    decreases plan.len(),
{
    if plan.len() == 0 {
        Seq::empty()
    } else {
        plan_bytes(plan.drop_last()) + octets::le_bytes(plan.last() as nat, 2)
    }
}

pub open spec fn stamp_of(e: EnvelopeState) -> EnvelopeStamp {
    EnvelopeStamp { time: e.time, seq_id: e.seq_id, seq_no: e.seq_no }
}

/// Header, payload, route plan, padding; each padding byte holds the padding length.
pub open spec fn encode_envelope(e: EnvelopeState) -> Seq<u8> {
    header_bytes(stamp_of(e), e.route_plan.len()) + e.payload + plan_bytes(e.route_plan)
        + Seq::new(e.padding_len as nat, |i: int| e.padding_len)
}

/// The envelope in `bytes`, if they hold one.
pub open spec fn decode_envelope(bytes: Seq<u8>) -> Option<EnvelopeState> {
    if bytes.len() < 16 {
        None
    } else {
        let word = octets::le_at(bytes, 0, 4) as int;
        let plan_len = word % 64;
        let padding = bytes.last() as int;
        let route_end = bytes.len() - padding;
        let payload_end = route_end - 2 * plan_len;
        if padding == 0 || payload_end < 16 || exists|i: int|
            route_end <= i < bytes.len() && #[trigger] bytes[i] != padding {
            None
        } else {
            Some(
                EnvelopeState {
                    time: (word / 64) as u32,
                    seq_id: octets::le_at(bytes, 4, 6) as u64,
                    seq_no: octets::le_at(bytes, 10, 6) as u64,
                    route_plan: Seq::new(
                        plan_len as nat,
                        |i: int| octets::le_at(bytes, payload_end + 2 * i, 2) as u16,
                    ),
                    payload: bytes.subrange(16, payload_end),
                    padding_len: padding as u8,
                },
            )
        }
    }
}

pub open spec fn encode_flags(type_flag: u8, reply_depth: u8) -> u8 {
    (type_flag + 8 * reply_depth) as u8
}

pub open spec fn encode_endpoint(m: EndpointMessageState) -> Seq<u8> {
    match m {
        EndpointMessageState::KcpPacket { reply_depth, packet } => seq![
            encode_flags(FLAG_KCP, reply_depth),
        ] + packet,
        EndpointMessageState::KeepAlive { reply_depth } => seq![
            encode_flags(FLAG_KEEP_ALIVE, reply_depth),
        ],
        EndpointMessageState::RouteReply { reply_depth, received_seq_id, received_seq_no } => seq![
            encode_flags(FLAG_ROUTE_REPLY, reply_depth),
        ] + octets::le_bytes(received_seq_id as nat, 6) + octets::le_bytes(
            received_seq_no as nat,
            6,
        ),
    }
}

pub open spec fn reply_depth_of(m: EndpointMessageState) -> u8 {
    match m {
        EndpointMessageState::KcpPacket { reply_depth, .. } => reply_depth,
        EndpointMessageState::KeepAlive { reply_depth } => reply_depth,
        EndpointMessageState::RouteReply { reply_depth, .. } => reply_depth,
    }
}

/// The endpoint message in `bytes`, if they hold one.
pub open spec fn decode_endpoint(bytes: Seq<u8>) -> Option<EndpointMessageState> {
    if bytes.len() == 0 {
        None
    } else {
        let flags = bytes[0];
        let reply_depth = (flags / 8) % 4;
        let type_bits = flags - 8 * reply_depth;
        if type_bits == FLAG_KCP {
            Some(EndpointMessageState::KcpPacket { reply_depth, packet: bytes.skip(1) })
        } else if type_bits == FLAG_KEEP_ALIVE && bytes.len() == 1 {
            Some(EndpointMessageState::KeepAlive { reply_depth })
        } else if type_bits == FLAG_ROUTE_REPLY && bytes.len() == 13 {
            Some(
                EndpointMessageState::RouteReply {
                    reply_depth,
                    received_seq_id: octets::le_at(bytes, 1, 6) as u64,
                    received_seq_no: octets::le_at(bytes, 7, 6) as u64,
                },
            )
        } else {
            None
        }
    }
}

pub open spec fn encode_session(m: SessionMessageState) -> Seq<u8> {
    match m {
        SessionMessageState::Open => seq![0u8],
        SessionMessageState::Data { bytes } => seq![1u8] + bytes,
        SessionMessageState::Close { reason } => seq![2u8, reason.code()],
    }
}

/// The session message in `bytes`, if they hold one.
pub open spec fn decode_session(bytes: Seq<u8>) -> Option<SessionMessageState> {
    if bytes.len() == 0 {
        None
    } else if bytes[0] == 0 && bytes.len() == 1 {
        Some(SessionMessageState::Open)
    } else if bytes[0] == 1 {
        Some(SessionMessageState::Data { bytes: bytes.skip(1) })
    } else if bytes[0] == 2 && bytes.len() == 2 && bytes[1] <= 3 {
        Some(SessionMessageState::Close { reason: CloseReason::of_code(bytes[1]) })
    } else {
        None
    }
}

// ---------------------------------------------------------------------------
// Envelope
// ---------------------------------------------------------------------------

/// Appends the 16 header bytes.
fn put_header(out: &mut Vec<u8>, stamp: EnvelopeStamp, plan_len: usize)
    requires
        plan_len <= MAX_ROUTE_PLAN_LEN,
    ensures
        final(out)@ == old(out)@ + header_bytes(stamp, plan_len as nat),
{
    let word: u32 = (stamp.time % 0x400_0000) * 64 + plan_len as u32;
    octets::put_le(out, word as u64, 4);
    octets::put_le(out, stamp.seq_id, 6);
    octets::put_le(out, stamp.seq_no, 6);
    assert(out@ =~= old(out)@ + header_bytes(stamp, plan_len as nat));
}

/// Whether all bytes from `from` on are `byte`.
fn ends_with(bytes: &[u8], from: usize, byte: u8) -> (yes: bool)
    requires
        from <= bytes@.len(),
    ensures
        yes == !(exists|i: int| from <= i < bytes@.len() && #[trigger] bytes@[i] != byte),
{
    let mut i: usize = from;
    while i < bytes.len()
        invariant
            from <= i <= bytes@.len(),
            forall|j: int| from <= j < i ==> #[trigger] bytes@[j] == byte,
        decreases bytes@.len() - i,
    {
        if bytes[i] != byte {
            assert(bytes@[i as int] != byte);
            return false;
        }
        i = i + 1;
    }
    true
}

impl Envelope {
    pub fn stamp(&self) -> (stamp: EnvelopeStamp)
        ensures
            stamp == stamp_of(self@),
    {
        EnvelopeStamp { time: self.time, seq_id: self.seq_id, seq_no: self.seq_no }
    }

    /// The encoded envelope behind `prefix_len` zero bytes.
    pub fn encode_with_prefix(&self, prefix_len: usize) -> (out: Vec<u8>)
        requires
            self.route_plan@.len() <= MAX_ROUTE_PLAN_LEN,
        ensures
            out@ == zeros(prefix_len as nat) + encode_envelope(self@),
    {
        let mut out: Vec<u8> = Vec::new();
        octets::put_repeated(&mut out, 0, prefix_len);
        put_header(&mut out, self.stamp(), self.route_plan.len());
        out.extend_from_slice(self.payload.as_slice());
        let ghost head = out@;
        let mut i: usize = 0;
        assert(self.route_plan@.take(0) =~= Seq::empty());
        assert(head + plan_bytes(self.route_plan@.take(0)) =~= head);
        while i < self.route_plan.len()
            invariant
                i <= self.route_plan@.len(),
                out@ == head + plan_bytes(self.route_plan@.take(i as int)),
            decreases self.route_plan@.len() - i,
        {
            let ghost before = out@;
            octets::put_le(&mut out, self.route_plan[i] as u64, 2);
            proof {
                let longer = self.route_plan@.take(i + 1);
                assert(longer.drop_last() =~= self.route_plan@.take(i as int));
                assert(out@ =~= head + plan_bytes(longer));
            }
            i = i + 1;
        }
        assert(self.route_plan@.take(i as int) =~= self.route_plan@);
        octets::put_repeated(&mut out, self.padding_len, self.padding_len as usize);
        assert(out@ =~= zeros(prefix_len as nat) + encode_envelope(self@));
        out
    }

    pub fn decode(bytes: &[u8]) -> (result: Result<Self, WireError>)
        ensures
            match decode_envelope(bytes@) {
                Some(e) => result is Ok && result->Ok_0@ == e,
                None => result == Err::<Envelope, WireError>(WireError),
            },
            result is Ok ==> {
                &&& result->Ok_0@.route_plan.len() <= MAX_ROUTE_PLAN_LEN
                &&& result->Ok_0@.payload.len() + 2 * result->Ok_0@.route_plan.len() + 17
                    <= bytes@.len()
            },
    {
        let total: usize = bytes.len();
        if total < ENVELOPE_FIXED_OVERHEAD {
            return Err(WireError);
        }
        proof {
            octets::lemma_pow256_values();
        }
        let word: u32 = octets::get_le(bytes, 0, 4) as u32;
        let plan_len: usize = (word % 64) as usize;
        let padding: usize = bytes[total - 1] as usize;
        if padding == 0 || total - ENVELOPE_FIXED_OVERHEAD < padding + plan_len * CHANNEL_ID_SIZE {
            return Err(WireError);
        }
        let route_end: usize = total - padding;
        let payload_end: usize = route_end - plan_len * CHANNEL_ID_SIZE;
        if !ends_with(bytes, route_end, padding as u8) {
            return Err(WireError);
        }
        let payload = octets::copy_range(bytes, ENVELOPE_FIXED_OVERHEAD, payload_end);
        let mut route_plan: Vec<ChannelId> = Vec::with_capacity(plan_len);
        let mut k: usize = 0;
        while k < plan_len
            invariant
                total == bytes@.len(),
                k <= plan_len <= 63,
                payload_end + 2 * plan_len == route_end <= total,
                route_plan@.len() == k,
                forall|j: int|
                    0 <= j < k ==> #[trigger] route_plan@[j] == octets::le_at(
                        bytes@,
                        payload_end + 2 * j,
                        2,
                    ),
            decreases plan_len - k,
        {
            proof {
                octets::lemma_pow256_values();
            }
            route_plan.push(octets::get_le(bytes, payload_end + 2 * k, 2) as u16);
            k = k + 1;
        }
        let envelope = Self {
            time: word / 64,
            seq_id: octets::get_le(bytes, 4, 6),
            seq_no: octets::get_le(bytes, 10, 6),
            route_plan,
            payload,
            padding_len: padding as u8,
        };
        proof {
            let e = decode_envelope(bytes@);
            assert(e is Some);
            assert(envelope@.route_plan =~= e->0.route_plan);
        }
        Ok(envelope)
    }
}

/// The nonce of the endpoint message in an envelope: the header with an empty route plan,
/// which no hop changes.
pub fn endpoint_nonce(stamp: EnvelopeStamp) -> (nonce: [u8; 16])
    ensures
        nonce@ == header_bytes(stamp, 0),
{
    let mut header: Vec<u8> = Vec::new();
    put_header(&mut header, stamp, 0);
    proof {
        lemma_header_len(stamp, 0);
        assert(header@ =~= header_bytes(stamp, 0));
    }
    let mut nonce: [u8; 16] = [0u8; 16];
    let mut i: usize = 0;
    while i < 16
        invariant
            i <= 16,
            header@.len() == 16,
            forall|j: int| 0 <= j < i ==> nonce@[j] == header@[j],
        decreases 16 - i,
    {
        nonce[i] = header[i];
        i = i + 1;
    }
    assert(nonce@ =~= header@);
    nonce
}

// ---------------------------------------------------------------------------
// Messages
// ---------------------------------------------------------------------------

impl EndpointMessage {
    pub fn reply_depth(&self) -> (depth: u8)
        ensures
            depth == reply_depth_of(self@),
    {
        match self {
            EndpointMessage::KcpPacket { reply_depth, .. } => *reply_depth,
            EndpointMessage::KeepAlive { reply_depth } => *reply_depth,
            EndpointMessage::RouteReply { reply_depth, .. } => *reply_depth,
        }
    }

    /// The encoded message behind `prefix_len` zero bytes.
    pub fn encode_with_prefix(&self, prefix_len: usize) -> (out: Vec<u8>)
        requires
            reply_depth_of(self@) <= MAX_REPLY_DEPTH,
        ensures
            out@ == zeros(prefix_len as nat) + encode_endpoint(self@),
    {
        let mut out: Vec<u8> = Vec::new();
        octets::put_repeated(&mut out, 0, prefix_len);
        match self {
            EndpointMessage::KcpPacket { reply_depth, packet } => {
                out.push(FLAG_KCP + REPLY_DEPTH_UNIT * *reply_depth);
                out.extend_from_slice(packet.as_slice());
            },
            EndpointMessage::KeepAlive { reply_depth } => {
                out.push(FLAG_KEEP_ALIVE + REPLY_DEPTH_UNIT * *reply_depth);
            },
            EndpointMessage::RouteReply { reply_depth, received_seq_id, received_seq_no } => {
                out.push(FLAG_ROUTE_REPLY + REPLY_DEPTH_UNIT * *reply_depth);
                octets::put_le(&mut out, *received_seq_id, 6);
                octets::put_le(&mut out, *received_seq_no, 6);
            },
        }
        assert(out@ =~= zeros(prefix_len as nat) + encode_endpoint(self@));
        out
    }

    /// Whether `bytes` hold a message.
    pub fn is_encoded(bytes: &[u8]) -> (yes: bool)
        ensures
            yes == (decode_endpoint(bytes@) is Some),
    {
        if bytes.len() == 0 {
            return false;
        }
        let flags: u8 = bytes[0];
        let reply_depth: u8 = (flags / REPLY_DEPTH_UNIT) % 4;
        let type_bits: u8 = flags - REPLY_DEPTH_UNIT * reply_depth;
        type_bits == FLAG_KCP || (type_bits == FLAG_KEEP_ALIVE && bytes.len() == 1) || (type_bits
            == FLAG_ROUTE_REPLY && bytes.len() == 13)
    }

    /// Reads a message that the peer has authenticated.
    pub fn decode(bytes: &[u8]) -> (message: Self)
        requires
            decode_endpoint(bytes@) is Some,
        ensures
            message@ == decode_endpoint(bytes@)->0,
    {
        proof {
            octets::lemma_pow256_values();
        }
        let flags: u8 = bytes[0];
        let reply_depth: u8 = (flags / REPLY_DEPTH_UNIT) % 4;
        let type_bits: u8 = flags - REPLY_DEPTH_UNIT * reply_depth;
        if type_bits == FLAG_KCP {
            let packet = octets::copy_range(bytes, 1, bytes.len());
            assert(packet@ =~= bytes@.skip(1));
            EndpointMessage::KcpPacket { reply_depth, packet }
        } else if type_bits == FLAG_KEEP_ALIVE {
            EndpointMessage::KeepAlive { reply_depth }
        } else {
            EndpointMessage::RouteReply {
                reply_depth,
                received_seq_id: octets::get_le(bytes, 1, 6),
                received_seq_no: octets::get_le(bytes, 7, 6),
            }
        }
    }
}

impl SessionMessage {
    pub fn encode(&self) -> (out: Vec<u8>)
        ensures
            out@ == encode_session(self@),
    {
        let mut out: Vec<u8> = Vec::new();
        match self {
            SessionMessage::Open => {
                out.push(0);
            },
            SessionMessage::Data { bytes } => {
                out.push(1);
                out.extend_from_slice(bytes.as_slice());
            },
            SessionMessage::Close { reason } => {
                out.push(2);
                out.push(reason.as_code());
            },
        }
        assert(out@ =~= encode_session(self@));
        out
    }

    /// Whether `bytes` hold a message.
    pub fn is_encoded(bytes: &[u8]) -> (yes: bool)
        ensures
            yes == (decode_session(bytes@) is Some),
    {
        let len: usize = bytes.len();
        if len == 0 {
            return false;
        }
        (bytes[0] == 0 && len == 1) || bytes[0] == 1 || (bytes[0] == 2 && len == 2 && bytes[1] <= 3)
    }

    /// Reads a message of an authenticated session.
    pub fn decode(bytes: &[u8]) -> (message: Self)
        requires
            decode_session(bytes@) is Some,
        ensures
            message@ == decode_session(bytes@)->0,
    {
        if bytes[0] == 0 {
            SessionMessage::Open
        } else if bytes[0] == 1 {
            let data = octets::copy_range(bytes, 1, bytes.len());
            assert(data@ =~= bytes@.skip(1));
            SessionMessage::Data { bytes: data }
        } else {
            SessionMessage::Close { reason: CloseReason::from_code(bytes[1]) }
        }
    }
}

// ---------------------------------------------------------------------------
// Laws
// ---------------------------------------------------------------------------

pub proof fn lemma_header_len(stamp: EnvelopeStamp, plan_len: nat)
    ensures
        header_bytes(stamp, plan_len).len() == 16,
{
    octets::lemma_le_bytes_len(time_and_route(stamp.time, plan_len), 4);
    octets::lemma_le_bytes_len(stamp.seq_id as nat, 6);
    octets::lemma_le_bytes_len(stamp.seq_no as nat, 6);
}

pub proof fn lemma_plan_len(plan: Seq<u16>)
    ensures
        plan_bytes(plan).len() == 2 * plan.len(),
    decreases plan.len(),
{
    if plan.len() > 0 {
        lemma_plan_len(plan.drop_last());
        octets::lemma_le_bytes_len(plan.last() as nat, 2);
    }
}

/// The channel at position `i` of an encoded plan.
proof fn lemma_plan_at(plan: Seq<u16>, i: int)
    requires
        0 <= i < plan.len(),
    ensures
        plan_bytes(plan).len() == 2 * plan.len(),
        octets::le_at(plan_bytes(plan), 2 * i, 2) == plan[i],
    decreases plan.len(),
{
    lemma_plan_len(plan);
    lemma_plan_len(plan.drop_last());
    octets::lemma_pow256_values();
    octets::lemma_le_roundtrip(plan.last() as nat, 2);
    let all = plan_bytes(plan);
    if i == plan.len() - 1 {
        assert(all.subrange(2 * i, 2 * i + 2) =~= octets::le_bytes(plan.last() as nat, 2));
    } else {
        lemma_plan_at(plan.drop_last(), i);
        assert(all.subrange(2 * i, 2 * i + 2) =~= plan_bytes(plan.drop_last()).subrange(
            2 * i,
            2 * i + 2,
        ));
    }
}

/// The length of an encoded envelope.
pub proof fn lemma_envelope_len(e: EnvelopeState)
    ensures
        encode_envelope(e).len() == 16 + e.payload.len() + 2 * e.route_plan.len() + e.padding_len,
{
    lemma_header_len(stamp_of(e), e.route_plan.len());
    lemma_plan_len(e.route_plan);
}

/// An envelope that fits its format.
pub open spec fn envelope_fits(e: EnvelopeState) -> bool {
    &&& e.time < 0x400_0000
    &&& e.seq_id < 0x1_0000_0000_0000
    &&& e.seq_no < 0x1_0000_0000_0000
    &&& e.route_plan.len() <= MAX_ROUTE_PLAN_LEN
    &&& e.padding_len >= 1
}

/// An envelope is read back as it was written.
pub proof fn law_envelope_roundtrip(e: EnvelopeState)
    requires
        envelope_fits(e),
    ensures
        decode_envelope(encode_envelope(e)) == Some(e),
{
    let bytes = encode_envelope(e);
    let n = e.route_plan.len();
    let word = time_and_route(e.time, n);
    octets::lemma_pow256_values();
    octets::lemma_le_roundtrip(word, 4);
    octets::lemma_le_roundtrip(e.seq_id as nat, 6);
    octets::lemma_le_roundtrip(e.seq_no as nat, 6);
    lemma_envelope_len(e);
    lemma_header_len(stamp_of(e), n);
    lemma_plan_len(e.route_plan);
    assert(bytes.subrange(0, 4) =~= octets::le_bytes(word, 4));
    assert(bytes.subrange(4, 10) =~= octets::le_bytes(e.seq_id as nat, 6));
    assert(bytes.subrange(10, 16) =~= octets::le_bytes(e.seq_no as nat, 6));
    let route_end = bytes.len() - e.padding_len;
    let payload_end = route_end - 2 * n;
    assert(bytes.last() == e.padding_len);
    assert(bytes.subrange(16, payload_end) =~= e.payload);
    assert forall|i: int| route_end <= i < bytes.len() implies #[trigger] bytes[i]
        == e.padding_len by {}
    assert forall|i: int| 0 <= i < n implies octets::le_at(bytes, payload_end + 2 * i, 2)
        == #[trigger] e.route_plan[i] by {
        lemma_plan_at(e.route_plan, i);
        assert(bytes.subrange(payload_end + 2 * i, payload_end + 2 * i + 2) =~= plan_bytes(
            e.route_plan,
        ).subrange(2 * i, 2 * i + 2));
    }
    let d = decode_envelope(bytes);
    assert(d is Some);
    assert(d->0.route_plan =~= e.route_plan);
    assert(d->0 =~= e);
}

/// The nonce depends on tick, sender and packet number alone, so every hop that changes
/// the route plan leaves the endpoint message readable.
pub proof fn law_nonce_ignores_route(a: EnvelopeState, b: EnvelopeState)
    requires
        stamp_of(a) == stamp_of(b),
    ensures
        header_bytes(stamp_of(a), 0) == header_bytes(stamp_of(b), 0),
{
}

/// Two packets of different senders or with different numbers have different nonces.
pub proof fn law_nonce_is_unique(a: EnvelopeStamp, b: EnvelopeStamp)
    requires
        a.seq_id < 0x1_0000_0000_0000 && a.seq_no < 0x1_0000_0000_0000,
        b.seq_id < 0x1_0000_0000_0000 && b.seq_no < 0x1_0000_0000_0000,
        header_bytes(a, 0) == header_bytes(b, 0),
    ensures
        a.seq_id == b.seq_id,
        a.seq_no == b.seq_no,
        a.time % 0x400_0000 == b.time % 0x400_0000,
{
    octets::lemma_pow256_values();
    lemma_header_len(a, 0);
    lemma_header_len(b, 0);
    let x = header_bytes(a, 0);
    let y = header_bytes(b, 0);
    octets::lemma_le_roundtrip(time_and_route(a.time, 0), 4);
    octets::lemma_le_roundtrip(time_and_route(b.time, 0), 4);
    octets::lemma_le_roundtrip(a.seq_id as nat, 6);
    octets::lemma_le_roundtrip(b.seq_id as nat, 6);
    octets::lemma_le_roundtrip(a.seq_no as nat, 6);
    octets::lemma_le_roundtrip(b.seq_no as nat, 6);
    assert(x.subrange(0, 4) =~= octets::le_bytes(time_and_route(a.time, 0), 4));
    assert(y.subrange(0, 4) =~= octets::le_bytes(time_and_route(b.time, 0), 4));
    assert(x.subrange(4, 10) =~= octets::le_bytes(a.seq_id as nat, 6));
    assert(y.subrange(4, 10) =~= octets::le_bytes(b.seq_id as nat, 6));
    assert(x.subrange(10, 16) =~= octets::le_bytes(a.seq_no as nat, 6));
    assert(y.subrange(10, 16) =~= octets::le_bytes(b.seq_no as nat, 6));
}

/// The packet ids of a message fit six bytes.
pub open spec fn endpoint_fits(m: EndpointMessageState) -> bool {
    &&& reply_depth_of(m) <= MAX_REPLY_DEPTH
    &&& m matches EndpointMessageState::RouteReply { received_seq_id, received_seq_no, .. } ==> {
        &&& received_seq_id < 0x1_0000_0000_0000
        &&& received_seq_no < 0x1_0000_0000_0000
    }
}

/// An endpoint message is read back as it was written.
pub proof fn law_endpoint_message_roundtrip(m: EndpointMessageState)
    requires
        endpoint_fits(m),
    ensures
        decode_endpoint(encode_endpoint(m)) == Some(m),
{
    let bytes = encode_endpoint(m);
    match m {
        EndpointMessageState::KcpPacket { reply_depth, packet } => {
            assert(bytes.skip(1) =~= packet);
        },
        EndpointMessageState::KeepAlive { .. } => {},
        EndpointMessageState::RouteReply { received_seq_id, received_seq_no, .. } => {
            octets::lemma_pow256_values();
            octets::lemma_le_roundtrip(received_seq_id as nat, 6);
            octets::lemma_le_roundtrip(received_seq_no as nat, 6);
            assert(bytes.subrange(1, 7) =~= octets::le_bytes(received_seq_id as nat, 6));
            assert(bytes.subrange(7, 13) =~= octets::le_bytes(received_seq_no as nat, 6));
        },
    }
}

/// A session message is read back as it was written.
pub proof fn law_session_message_roundtrip(m: SessionMessageState)
    ensures
        decode_session(encode_session(m)) == Some(m),
{
    match m {
        SessionMessageState::Data { bytes } => {
            assert(encode_session(m).skip(1) =~= bytes);
        },
        _ => {},
    }
}

/// A plan is written as it was read.
proof fn lemma_plan_back(bytes: Seq<u8>, at: int, plan: Seq<u16>)
    requires
        0 <= at,
        at + 2 * plan.len() <= bytes.len(),
        forall|i: int|
            0 <= i < plan.len() ==> #[trigger] plan[i] == octets::le_at(bytes, at + 2 * i, 2) as u16,
    ensures
        plan_bytes(plan) == bytes.subrange(at, at + 2 * plan.len()),
    decreases plan.len(),
{
    if plan.len() > 0 {
        let n = plan.len() - 1;
        let shorter = plan.drop_last();
        assert forall|i: int| 0 <= i < shorter.len() implies #[trigger] shorter[i]
            == octets::le_at(bytes, at + 2 * i, 2) as u16 by {
            assert(shorter[i] == plan[i]);
        }
        lemma_plan_back(bytes, at, shorter);
        octets::lemma_pow256_values();
        octets::lemma_le_value_roundtrip(bytes.subrange(at + 2 * n, at + 2 * n + 2));
        assert(plan[n] == plan.last());
        assert(bytes.subrange(at, at + 2 * n) + bytes.subrange(at + 2 * n, at + 2 * n + 2)
            =~= bytes.subrange(at, at + 2 * plan.len()));
    } else {
        assert(plan_bytes(plan) =~= bytes.subrange(at, at));
    }
}

/// An envelope has one form alone: what can be read is written as the same bytes.
pub proof fn law_envelope_has_one_form(bytes: Seq<u8>)
    requires
        decode_envelope(bytes) is Some,
    ensures
        encode_envelope(decode_envelope(bytes)->0) == bytes,
{
    let e = decode_envelope(bytes)->0;
    let n = e.route_plan.len() as int;
    let word = octets::le_at(bytes, 0, 4);
    let route_end = bytes.len() - e.padding_len;
    let payload_end = route_end - 2 * n;
    octets::lemma_pow256_values();
    octets::lemma_le_value_roundtrip(bytes.subrange(0, 4));
    octets::lemma_le_value_roundtrip(bytes.subrange(4, 10));
    octets::lemma_le_value_roundtrip(bytes.subrange(10, 16));
    assert(time_and_route(e.time, n as nat) == word);
    lemma_plan_back(bytes, payload_end, e.route_plan);
    lemma_header_len(stamp_of(e), n as nat);
    assert(header_bytes(stamp_of(e), n as nat) =~= bytes.subrange(0, 16));
    let padding = Seq::new(e.padding_len as nat, |i: int| e.padding_len);
    assert(padding =~= bytes.subrange(route_end, bytes.len() as int));
    assert(encode_envelope(e) =~= bytes);
}

/// An endpoint message has one form alone.
pub proof fn law_endpoint_message_has_one_form(bytes: Seq<u8>)
    requires
        decode_endpoint(bytes) is Some,
    ensures
        encode_endpoint(decode_endpoint(bytes)->0) == bytes,
{
    let m = decode_endpoint(bytes)->0;
    match m {
        EndpointMessageState::RouteReply { .. } => {
            octets::lemma_pow256_values();
            octets::lemma_le_value_roundtrip(bytes.subrange(1, 7));
            octets::lemma_le_value_roundtrip(bytes.subrange(7, 13));
        },
        _ => {},
    }
    assert(encode_endpoint(m) =~= bytes);
}

/// A session message has one form alone.
pub proof fn law_session_message_has_one_form(bytes: Seq<u8>)
    requires
        decode_session(bytes) is Some,
    ensures
        encode_session(decode_session(bytes)->0) == bytes,
{
    assert(encode_session(decode_session(bytes)->0) =~= bytes);
}

/// What has been read from bytes fits the format.
pub proof fn lemma_decoded_fits(bytes: Seq<u8>)
    requires
        decode_envelope(bytes) is Some,
    ensures
        envelope_fits(decode_envelope(bytes)->0),
{
    octets::lemma_pow256_values();
    octets::lemma_le_value_roundtrip(bytes.subrange(0, 4));
    octets::lemma_le_value_roundtrip(bytes.subrange(4, 10));
    octets::lemma_le_value_roundtrip(bytes.subrange(10, 16));
}

/// No session message is empty.
pub proof fn lemma_session_len(m: SessionMessageState)
    ensures
        encode_session(m).len() == (match m {
            SessionMessageState::Open => 1nat,
            SessionMessageState::Data { bytes } => 1 + bytes.len(),
            SessionMessageState::Close { .. } => 2nat,
        }),
{
}

/// The length of an endpoint message.
pub proof fn lemma_endpoint_len(m: EndpointMessageState)
    ensures
        encode_endpoint(m).len() == (match m {
            EndpointMessageState::KcpPacket { packet, .. } => 1 + packet.len(),
            EndpointMessageState::KeepAlive { .. } => 1nat,
            EndpointMessageState::RouteReply { .. } => 13nat,
        }),
{
    match m {
        EndpointMessageState::RouteReply { received_seq_id, received_seq_no, .. } => {
            octets::lemma_le_bytes_len(received_seq_id as nat, 6);
            octets::lemma_le_bytes_len(received_seq_no as nat, 6);
        },
        _ => {},
    }
}

} // verus!
