//! The SOCKS5 proxy: handshake, requests, replies, and the transfer of bytes.
use vstd::prelude::*;

use crate::machine::CloseReason;
use crate::octets;
use crate::proxy::message::ProxyMessage;
use crate::text;

verus! {

// ---------------------------------------------------------------------------
// Replies
// ---------------------------------------------------------------------------

/// An address of the machine.
#[derive(Debug, Clone, Copy, PartialEq, Eq)]
pub enum BoundAddress {
    V4 { octets: [u8; 4], port: u16 },
    V6 { octets: [u8; 16], port: u16 },
}

/// A port, most significant byte first.
pub open spec fn port_bytes(port: u16) -> Seq<u8> {
    seq![(port / 256) as u8, (port % 256) as u8]
}

pub open spec fn address_bytes(addr: BoundAddress) -> Seq<u8> {
    match addr {
        BoundAddress::V4 { octets, port } => seq![1u8] + octets@ + port_bytes(port),
        BoundAddress::V6 { octets, port } => seq![4u8] + octets@ + port_bytes(port),
    }
}

/// A reply: version, status, and an address.
pub open spec fn reply_bytes(status: u8, addr: Option<BoundAddress>) -> Seq<u8> {
    seq![5u8, status, 0u8] + match addr {
        Some(addr) => address_bytes(addr),
        None => seq![1u8, 0u8, 0u8, 0u8, 0u8, 0u8, 0u8],
    }
}

/// The reply with this status. Without an address it names port 0 of `0.0.0.0`.
pub fn reply(status: u8, addr: Option<BoundAddress>) -> (bytes: Vec<u8>)
    ensures
        bytes@ == reply_bytes(status, addr),
{
    let mut bytes: Vec<u8> = Vec::new();
    bytes.push(5);
    bytes.push(status);
    bytes.push(0);
    let shown: BoundAddress = match addr {
        Some(addr) => addr,
        None => BoundAddress::V4 { octets: [0u8; 4], port: 0 },
    };
    let port: u16 = match shown {
        BoundAddress::V4 { octets, port } => {
            bytes.push(1);
            let mut i: usize = 0;
            while i < 4
                invariant
                    i <= 4,
                    bytes@ == seq![5u8, status, 0u8, 1u8] + octets@.take(i as int),
                decreases 4 - i,
            {
                bytes.push(octets[i]);
                assert(octets@.take(i + 1) =~= octets@.take(i as int).push(octets@[i as int]));
                i = i + 1;
            }
            assert(octets@.take(4) =~= octets@);
            port
        },
        BoundAddress::V6 { octets, port } => {
            bytes.push(4);
            let mut i: usize = 0;
            while i < 16
                invariant
                    i <= 16,
                    bytes@ == seq![5u8, status, 0u8, 4u8] + octets@.take(i as int),
                decreases 16 - i,
            {
                bytes.push(octets[i]);
                assert(octets@.take(i + 1) =~= octets@.take(i as int).push(octets@[i as int]));
                i = i + 1;
            }
            assert(octets@.take(16) =~= octets@);
            port
        },
    };
    bytes.push((port / 256) as u8);
    bytes.push((port % 256) as u8);
    assert(bytes@ =~= seq![5u8, status, 0u8] + address_bytes(shown));
    assert(bytes@ =~= reply_bytes(status, addr));
    bytes
}

// ---------------------------------------------------------------------------
// Requests
// ---------------------------------------------------------------------------

/// Where a request wants to go.
#[derive(Debug, Clone, PartialEq, Eq)]
pub enum TargetAddress {
    V4 { octets: Vec<u8>, port: u16 },
    V6 { octets: Vec<u8>, port: u16 },
    Domain { name: String, port: u16 },
}

#[verifier::ext_equal]
pub enum TargetState {
    V4 { octets: Seq<u8>, port: u16 },
    V6 { octets: Seq<u8>, port: u16 },
    Domain { name: Seq<u8>, port: u16 },
}

impl View for TargetAddress {
    type V = TargetState;

    open spec fn view(&self) -> TargetState {
        match self {
            TargetAddress::V4 { octets, port } => TargetState::V4 { octets: octets@, port: *port },
            TargetAddress::V6 { octets, port } => TargetState::V6 { octets: octets@, port: *port },
            TargetAddress::Domain { name, port } => TargetState::Domain {
                name: text::utf8(name@),
                port: *port,
            },
        }
    }
}

/// The port in the last two bytes.
pub open spec fn port_of(request: Seq<u8>) -> u16 {
    (request[request.len() - 2] * 256 + request[request.len() - 1]) as u16
}

/// The request has the form of a `CONNECT`: version, command, a type of address, and an
/// address of the length that its type asks for.
pub open spec fn well_formed(request: Seq<u8>) -> bool {
    &&& request.len() >= 4
    &&& request.take(3) == seq![5u8, 1u8, 0u8]
    &&& {
        ||| request[3] == 1 && request.len() == 10
        ||| request[3] == 4 && request.len() == 22
        ||| request[3] == 3 && request.len() >= 7 && request.len() == request[4] + 7
    }
}

/// The target of a request. A name has to be valid UTF-8.
pub open spec fn target_of(request: Seq<u8>) -> Option<TargetState> {
    if !well_formed(request) {
        None
    } else if request[3] == 1 {
        Some(TargetState::V4 { octets: request.subrange(4, 8), port: port_of(request) })
    } else if request[3] == 4 {
        Some(TargetState::V6 { octets: request.subrange(4, 20), port: port_of(request) })
    } else {
        let name = request.subrange(5, 5 + request[4]);
        if vstd::utf8::valid_utf8(name) {
            Some(TargetState::Domain { name, port: port_of(request) })
        } else {
            None
        }
    }
}

/// The target of a request.
pub fn target(request: &[u8]) -> (target: Option<TargetAddress>)
    ensures
        match target {
            Some(target) => target_of(request@) == Some(target@),
            None => target_of(request@) is None,
        },
        target matches Some(TargetAddress::V4 { octets, port }) ==> request@ == seq![
            5u8,
            1u8,
            0u8,
            1u8,
        ] + octets@ + seq![(port / 256) as u8, (port % 256) as u8],
        target matches Some(TargetAddress::V6 { octets, port }) ==> request@ == seq![
            5u8,
            1u8,
            0u8,
            4u8,
        ] + octets@ + seq![(port / 256) as u8, (port % 256) as u8],
        target matches Some(TargetAddress::Domain { name, port }) ==> request@ == seq![
            5u8,
            1u8,
            0u8,
            3u8,
            text::utf8(name@).len() as u8,
        ] + text::utf8(name@) + seq![(port / 256) as u8, (port % 256) as u8],
{
    proof {
        if target_of(request@) is Some {
            law_target_is_what_was_asked(request@);
        }
    }
    let n: usize = request.len();
    if n < 4 || request[0] != 5 || request[1] != 1 || request[2] != 0 {
        proof {
            if n >= 4 {
                assert(request@.take(3)[0] == request@[0]);
                assert(request@.take(3)[1] == request@[1]);
                assert(request@.take(3)[2] == request@[2]);
                assert(seq![5u8, 1u8, 0u8][0] == 5u8);
                assert(seq![5u8, 1u8, 0u8][1] == 1u8);
                assert(seq![5u8, 1u8, 0u8][2] == 0u8);
            }
        }
        return None;
    }
    assert(request@.take(3) =~= seq![5u8, 1u8, 0u8]);
    let kind: u8 = request[3];
    if kind == 1 && n == 10 {
        let port: u16 = request[8] as u16 * 256 + request[9] as u16;
        Some(TargetAddress::V4 { octets: octets::copy_range(request, 4, 8), port })
    } else if kind == 4 && n == 22 {
        let port: u16 = request[20] as u16 * 256 + request[21] as u16;
        Some(TargetAddress::V6 { octets: octets::copy_range(request, 4, 20), port })
    } else if kind == 3 && n >= 7 && n == request[4] as usize + 7 {
        let length: usize = request[4] as usize;
        let port: u16 = request[n - 2] as u16 * 256 + request[n - 1] as u16;
        match text::from_utf8(octets::copy_range(request, 5, 5 + length)) {
            Some(name) => Some(TargetAddress::Domain { name, port }),
            None => None,
        }
    } else {
        None
    }
}

/// The request for a target: the version, the command, a zero, the type of the address, the
/// address, and the port with its most significant byte first. The length of a name stands
/// before it.
pub open spec fn request_bytes(target: TargetState) -> Seq<u8> {
    match target {
        TargetState::V4 { octets, port } => seq![5u8, 1u8, 0u8, 1u8] + octets + seq![
            (port / 256) as u8,
            (port % 256) as u8,
        ],
        TargetState::V6 { octets, port } => seq![5u8, 1u8, 0u8, 4u8] + octets + seq![
            (port / 256) as u8,
            (port % 256) as u8,
        ],
        TargetState::Domain { name, port } => seq![5u8, 1u8, 0u8, 3u8, name.len() as u8] + name
            + seq![(port / 256) as u8, (port % 256) as u8],
    }
}

/// The target can be asked for.
pub open spec fn can_be_asked(target: TargetState) -> bool {
    match target {
        TargetState::V4 { octets, .. } => octets.len() == 4,
        TargetState::V6 { octets, .. } => octets.len() == 16,
        TargetState::Domain { name, .. } => name.len() <= 255 && vstd::utf8::valid_utf8(name),
    }
}

/// The request for a target has that target.
pub proof fn law_request_gives_its_target(target: TargetState)
    requires
        can_be_asked(target),
    ensures
        target_of(request_bytes(target)) == Some(target),
{
    let request = request_bytes(target);
    assert(request.take(3) =~= seq![5u8, 1u8, 0u8]);
    match target {
        TargetState::V4 { octets, port } => {
            assert(request.subrange(4, 8) =~= octets);
            assert(port_of(request) == port);
        },
        TargetState::V6 { octets, port } => {
            assert(request.subrange(4, 20) =~= octets);
            assert(port_of(request) == port);
        },
        TargetState::Domain { name, port } => {
            assert(request[4] == name.len());
            assert(request.subrange(5, 5 + request[4]) =~= name);
            assert(port_of(request) == port);
        },
    }
}

/// A request that has a target is the request for that target, and no other.
pub proof fn law_target_is_what_was_asked(request: Seq<u8>)
    requires
        target_of(request) is Some,
    ensures
        can_be_asked(target_of(request)->0),
        request == request_bytes(target_of(request)->0),
{
    let target = target_of(request)->0;
    let front = seq![5u8, 1u8, 0u8];
    assert(request.take(3)[0] == request[0] && front[0] == 5u8);
    assert(request.take(3)[1] == request[1] && front[1] == 1u8);
    assert(request.take(3)[2] == request[2] && front[2] == 0u8);
    let n = request.len() as int;
    let port = port_of(request);
    assert((port / 256) as u8 == request[n - 2] && (port % 256) as u8 == request[n - 1]);
    assert(request =~= request_bytes(target));
}

// ---------------------------------------------------------------------------
// Handshake
// ---------------------------------------------------------------------------

/// What the handshake reads next.
#[derive(Debug, Clone, PartialEq, Eq)]
pub enum Handshake {
    /// Version and number of methods.
    Greeting,
    /// The methods.
    Methods { version: u8, count: usize },
    /// Version, command, a reserved byte and the type of the address.
    Header,
    /// The length of a name.
    Length { request: Vec<u8> },
    /// The rest of the request.
    Rest { request: Vec<u8>, remaining: usize },
}

#[verifier::ext_equal]
pub enum HandshakeState {
    Greeting,
    Methods { version: u8, count: nat },
    Header,
    Length { request: Seq<u8> },
    Rest { request: Seq<u8>, remaining: nat },
}

impl View for Handshake {
    type V = HandshakeState;

    open spec fn view(&self) -> HandshakeState {
        match self {
            Handshake::Greeting => HandshakeState::Greeting,
            Handshake::Methods { version, count } => HandshakeState::Methods {
                version: *version,
                count: *count as nat,
            },
            Handshake::Header => HandshakeState::Header,
            Handshake::Length { request } => HandshakeState::Length { request: request@ },
            Handshake::Rest { request, remaining } => HandshakeState::Rest {
                request: request@,
                remaining: *remaining as nat,
            },
        }
    }
}

/// How many bytes the handshake reads next.
pub open spec fn wants(state: HandshakeState) -> nat {
    match state {
        HandshakeState::Greeting => 2,
        HandshakeState::Methods { count, .. } => count,
        HandshakeState::Header => 4,
        HandshakeState::Length { .. } => 1,
        HandshakeState::Rest { remaining, .. } => remaining,
    }
}

/// What comes of the bytes.
#[derive(Debug, Clone, PartialEq, Eq)]
pub enum HandshakeStep {
    /// The handshake goes on, after `reply` has been sent.
    Continue { reply: Vec<u8>, next: Handshake },
    /// The handshake has failed, and ends after `reply` has been sent.
    Refuse { reply: Vec<u8> },
    /// The handshake is done: this is the request.
    Request { request: Vec<u8> },
}

#[verifier::ext_equal]
pub enum StepState {
    Continue { reply: Seq<u8>, next: HandshakeState },
    Refuse { reply: Seq<u8> },
    Request { request: Seq<u8> },
}

impl View for HandshakeStep {
    type V = StepState;

    open spec fn view(&self) -> StepState {
        match self {
            HandshakeStep::Continue { reply, next } => StepState::Continue {
                reply: reply@,
                next: next@,
            },
            HandshakeStep::Refuse { reply } => StepState::Refuse { reply: reply@ },
            HandshakeStep::Request { request } => StepState::Request { request: request@ },
        }
    }
}

/// The step that bytes lead to.
pub open spec fn handshake_step(state: HandshakeState, bytes: Seq<u8>) -> StepState {
    match state {
        HandshakeState::Greeting => StepState::Continue {
            reply: Seq::empty(),
            next: HandshakeState::Methods { version: bytes[0], count: bytes[1] as nat },
        },
        HandshakeState::Methods { version, .. } => if version != 5 || !bytes.contains(0u8) {
            StepState::Refuse { reply: seq![5u8, 0xffu8] }
        } else {
            StepState::Continue { reply: seq![5u8, 0u8], next: HandshakeState::Header }
        },
        HandshakeState::Header => if bytes.take(3) != seq![5u8, 1u8, 0u8] {
            StepState::Refuse { reply: reply_bytes(7, None) }
        } else if bytes[3] == 1 {
            StepState::Continue {
                reply: Seq::empty(),
                next: HandshakeState::Rest { request: bytes, remaining: 6 },
            }
        } else if bytes[3] == 4 {
            StepState::Continue {
                reply: Seq::empty(),
                next: HandshakeState::Rest { request: bytes, remaining: 18 },
            }
        } else if bytes[3] == 3 {
            StepState::Continue {
                reply: Seq::empty(),
                next: HandshakeState::Length { request: bytes },
            }
        } else {
            StepState::Refuse { reply: reply_bytes(8, None) }
        },
        HandshakeState::Length { request } => StepState::Continue {
            reply: Seq::empty(),
            next: HandshakeState::Rest {
                request: request + bytes,
                remaining: (bytes[0] + 2) as nat,
            },
        },
        HandshakeState::Rest { request, .. } => StepState::Request { request: request + bytes },
    }
}

impl Handshake {
    pub fn new() -> (handshake: Handshake)
        ensures
            handshake@ == HandshakeState::Greeting,
    {
        Handshake::Greeting
    }

    /// How many bytes are read next.
    pub fn wants(&self) -> (count: usize)
        ensures
            count == wants(self@),
    {
        match self {
            Handshake::Greeting => 2,
            Handshake::Methods { count, .. } => *count,
            Handshake::Header => 4,
            Handshake::Length { .. } => 1,
            Handshake::Rest { remaining, .. } => *remaining,
        }
    }

    /// Takes the bytes that were read.
    pub fn step(self, bytes: Vec<u8>) -> (step: HandshakeStep)
        requires
            bytes@.len() == wants(self@),
        ensures
            step@ == handshake_step(self@, bytes@),
    {
        match self {
            Handshake::Greeting => {
                let next = Handshake::Methods { version: bytes[0], count: bytes[1] as usize };
                HandshakeStep::Continue { reply: Vec::new(), next }
            },
            Handshake::Methods { version, .. } => {
                if version != 5 || !has_zero(&bytes) {
                    let mut reply: Vec<u8> = Vec::new();
                    reply.push(5);
                    reply.push(0xff);
                    assert(reply@ =~= seq![5u8, 0xffu8]);
                    HandshakeStep::Refuse { reply }
                } else {
                    let mut reply: Vec<u8> = Vec::new();
                    reply.push(5);
                    reply.push(0);
                    assert(reply@ =~= seq![5u8, 0u8]);
                    HandshakeStep::Continue { reply, next: Handshake::Header }
                }
            },
            Handshake::Header => {
                proof {
                    let front = seq![5u8, 1u8, 0u8];
                    assert(bytes@.take(3)[0] == bytes@[0] && front[0] == 5u8);
                    assert(bytes@.take(3)[1] == bytes@[1] && front[1] == 1u8);
                    assert(bytes@.take(3)[2] == bytes@[2] && front[2] == 0u8);
                    if bytes@[0] == 5 && bytes@[1] == 1 && bytes@[2] == 0 {
                        assert(bytes@.take(3) =~= front);
                    }
                }
                if bytes[0] != 5 || bytes[1] != 1 || bytes[2] != 0 {
                    return HandshakeStep::Refuse { reply: reply(7, None) };
                }
                let kind: u8 = bytes[3];
                if kind == 1 {
                    let next = Handshake::Rest { request: bytes, remaining: 6 };
                    HandshakeStep::Continue { reply: Vec::new(), next }
                } else if kind == 4 {
                    let next = Handshake::Rest { request: bytes, remaining: 18 };
                    HandshakeStep::Continue { reply: Vec::new(), next }
                } else if kind == 3 {
                    let next = Handshake::Length { request: bytes };
                    HandshakeStep::Continue { reply: Vec::new(), next }
                } else {
                    HandshakeStep::Refuse { reply: reply(8, None) }
                }
            },
            Handshake::Length { request } => {
                let mut request = request;
                let remaining: usize = bytes[0] as usize + 2;
                request.push(bytes[0]);
                assert(self@->Length_request + bytes@ =~= request@);
                let next = Handshake::Rest { request, remaining };
                HandshakeStep::Continue { reply: Vec::new(), next }
            },
            Handshake::Rest { request, .. } => {
                let mut request = request;
                request.extend_from_slice(bytes.as_slice());
                HandshakeStep::Request { request }
            },
        }
    }
}

fn has_zero(bytes: &Vec<u8>) -> (yes: bool)
    ensures
        yes == bytes@.contains(0u8),
{
    let mut i: usize = 0;
    while i < bytes.len()
        invariant
            i <= bytes@.len(),
            forall|j: int| 0 <= j < i ==> bytes@[j] != 0,
        decreases bytes@.len() - i,
    {
        if bytes[i] == 0 {
            return true;
        }
        i = i + 1;
    }
    false
}

/// What has been read of a request is the start of a well formed one.
pub open spec fn on_track(state: HandshakeState) -> bool {
    match state {
        HandshakeState::Length { request } => request.len() == 4 && request.take(3) == seq![
            5u8,
            1u8,
            0u8,
        ] && request[3] == 3,
        HandshakeState::Rest { request, remaining } => {
            &&& request.len() >= 4
            &&& request.take(3) == seq![5u8, 1u8, 0u8]
            &&& {
                ||| request[3] == 1 && request.len() == 4 && remaining == 6
                ||| request[3] == 4 && request.len() == 4 && remaining == 18
                ||| request[3] == 3 && request.len() == 5 && remaining == request[4] + 2
            }
        },
        _ => true,
    }
}

/// A request that a handshake ends with is well formed: it has a target, unless the name in
/// it is not valid UTF-8.
pub proof fn law_handshake_gives_a_request(state: HandshakeState, bytes: Seq<u8>)
    requires
        on_track(state),
        bytes.len() == wants(state),
    ensures
        match handshake_step(state, bytes) {
            StepState::Continue { next, .. } => on_track(next),
            StepState::Refuse { reply } => reply.len() >= 2 && reply[0] == 5 && reply[1] != 0,
            StepState::Request { request } => well_formed(request) && (target_of(request) is None
                ==> request[3] == 3 && !vstd::utf8::valid_utf8(
                request.subrange(5, 5 + request[4]),
            )),
        },
{
    match state {
        HandshakeState::Header => {
            if bytes.take(3) == seq![5u8, 1u8, 0u8] {
                assert(bytes[0] == bytes.take(3)[0]);
            }
        },
        HandshakeState::Length { request } => {
            let longer = request + bytes;
            assert(longer.take(3) =~= request.take(3));
        },
        HandshakeState::Rest { request, .. } => {
            let longer = request + bytes;
            assert(longer.take(3) =~= request.take(3));
        },
        _ => {},
    }
}

/// The state that a client leads the handshake to which sends these messages one after the
/// other, each of the length that is asked for, and the answers that it gets. `None` where
/// the handshake has ended before, or where a message has another length.
pub open spec fn conversation(messages: Seq<Seq<u8>>) -> Option<(Seq<u8>, StepState)>
    decreases messages.len(),
{
    if messages.len() == 0 {
        None
    } else {
        let message = messages.last();
        if messages.len() == 1 {
            if message.len() == wants(HandshakeState::Greeting) {
                match handshake_step(HandshakeState::Greeting, message) {
                    StepState::Continue { reply, next } => Some(
                        (reply, StepState::Continue { reply, next }),
                    ),
                    StepState::Refuse { reply } => Some((reply, StepState::Refuse { reply })),
                    StepState::Request { request } => Some(
                        (Seq::empty(), StepState::Request { request }),
                    ),
                }
            } else {
                None
            }
        } else {
            match conversation(messages.drop_last()) {
                Some((said, StepState::Continue { next, .. })) => if message.len() == wants(next) {
                    match handshake_step(next, message) {
                        StepState::Continue { reply, next } => Some(
                            (said + reply, StepState::Continue { reply, next }),
                        ),
                        StepState::Refuse { reply } => Some(
                            (said + reply, StepState::Refuse { reply }),
                        ),
                        StepState::Request { request } => Some(
                            (said, StepState::Request { request }),
                        ),
                    }
                } else {
                    None
                },
                _ => None,
            }
        }
    }
}

/// What a client sends to ask for a target: the greeting with its methods, the header of the
/// request, the length of a name where there is one, and the rest.
pub open spec fn client_messages(methods: Seq<u8>, target: TargetState) -> Seq<Seq<u8>> {
    let hello = seq![seq![5u8, methods.len() as u8], methods];
    let request = request_bytes(target);
    if target is Domain {
        hello + seq![request.take(4), request.subrange(4, 5), request.skip(5)]
    } else {
        hello + seq![request.take(4), request.skip(4)]
    }
}

proof fn lemma_conversation_step(messages: Seq<Seq<u8>>, message: Seq<u8>)
    requires
        messages.len() > 0,
    ensures
        conversation(messages.push(message)) == match conversation(messages) {
            Some((said, StepState::Continue { next, .. })) => if message.len() == wants(next) {
                match handshake_step(next, message) {
                    StepState::Continue { reply, next } => Some(
                        (said + reply, StepState::Continue { reply, next }),
                    ),
                    StepState::Refuse { reply } => Some(
                        (said + reply, StepState::Refuse { reply }),
                    ),
                    StepState::Request { request } => Some(
                        (said, StepState::Request { request }),
                    ),
                }
            } else {
                None
            },
            _ => None,
        },
{
    assert(messages.push(message).drop_last() =~= messages);
}

/// A client that offers the method without authentication and asks for a target is told so,
/// with the bytes 5 and 0, and the handshake ends with its request, byte for byte.
pub proof fn law_handshake_takes_the_request(methods: Seq<u8>, target: TargetState)
    requires
        methods.len() <= 255,
        methods.contains(0u8),
        can_be_asked(target),
    ensures
        ({
            let end = conversation(client_messages(methods, target));
            &&& end is Some
            &&& end->0 == (
                seq![5u8, 0u8],
                StepState::Request { request: request_bytes(target) },
            )
        }),
{
    let request = request_bytes(target);
    let empty = Seq::<u8>::empty();
    let m1 = seq![seq![5u8, methods.len() as u8]];
    reveal_with_fuel(conversation, 2);
    let c1 = conversation(m1);
    assert(c1 is Some);
    let m2 = m1.push(methods);
    lemma_conversation_step(m1, methods);
    assert(empty + seq![5u8, 0u8] =~= seq![5u8, 0u8]);
    let m3 = m2.push(request.take(4));
    lemma_conversation_step(m2, request.take(4));
    assert(request.take(4).take(3) =~= seq![5u8, 1u8, 0u8]);
    assert(seq![5u8, 0u8] + empty =~= seq![5u8, 0u8]);
    if target is Domain {
        let m4 = m3.push(request.subrange(4, 5));
        lemma_conversation_step(m3, request.subrange(4, 5));
        let m5 = m4.push(request.skip(5));
        lemma_conversation_step(m4, request.skip(5));
        assert(request.take(4) + request.subrange(4, 5) + request.skip(5) =~= request);
        assert(m5 =~= client_messages(methods, target));
    } else {
        let m4 = m3.push(request.skip(4));
        lemma_conversation_step(m3, request.skip(4));
        assert(request.take(4) + request.skip(4) =~= request);
        assert(m4 =~= client_messages(methods, target));
    }
}

/// A client of another version, or one that does not offer the method without
/// authentication, is refused with the bytes 5 and 255.
pub proof fn law_handshake_needs_the_open_method(version: u8, methods: Seq<u8>)
    requires
        methods.len() <= 255,
        version != 5 || !methods.contains(0u8),
    ensures
        conversation(seq![seq![version, methods.len() as u8], methods]) == Some(
            (seq![5u8, 0xffu8], StepState::Refuse { reply: seq![5u8, 0xffu8] }),
        ),
{
    reveal_with_fuel(conversation, 2);
    let m1 = seq![seq![version, methods.len() as u8]];
    assert(conversation(m1) is Some);
    lemma_conversation_step(m1, methods);
    assert(m1.push(methods) =~= seq![seq![version, methods.len() as u8], methods]);
    assert(Seq::<u8>::empty() + seq![5u8, 0xffu8] =~= seq![5u8, 0xffu8]);
}

/// A request for another command, or of another version, is answered with status 7, and one
/// with an unknown type of address with status 8. The answer names port 0 of `0.0.0.0`.
pub proof fn law_handshake_refuses_the_rest(header: Seq<u8>)
    requires
        header.len() == 4,
    ensures
        header[0] != 5 || header[1] != 1 || header[2] != 0 ==> handshake_step(
            HandshakeState::Header,
            header,
        ) == (StepState::Refuse {
            reply: seq![5u8, 7u8, 0u8, 1u8, 0u8, 0u8, 0u8, 0u8, 0u8, 0u8],
        }),
        header[0] == 5 && header[1] == 1 && header[2] == 0 && header[3] != 1 && header[3] != 3
            && header[3] != 4 ==> handshake_step(HandshakeState::Header, header) == (
        StepState::Refuse { reply: seq![5u8, 8u8, 0u8, 1u8, 0u8, 0u8, 0u8, 0u8, 0u8, 0u8] }),
{
    let front = seq![5u8, 1u8, 0u8];
    assert(header.take(3)[0] == header[0] && front[0] == 5u8);
    assert(header.take(3)[1] == header[1] && front[1] == 1u8);
    assert(header.take(3)[2] == header[2] && front[2] == 0u8);
    if header[0] == 5 && header[1] == 1 && header[2] == 0 {
        assert(header.take(3) =~= front);
    }
    assert(reply_bytes(7, None) =~= seq![5u8, 7u8, 0u8, 1u8, 0u8, 0u8, 0u8, 0u8, 0u8, 0u8]);
    assert(reply_bytes(8, None) =~= seq![5u8, 8u8, 0u8, 1u8, 0u8, 0u8, 0u8, 0u8, 0u8, 0u8]);
}

/// A reply holds the version, the status, a zero, and the address with the port, most
/// significant byte first.
pub proof fn law_reply_names_the_address(status: u8, octets: [u8; 4], long: [u8; 16], port: u16)
    ensures
        reply_bytes(status, Some(BoundAddress::V4 { octets, port })) == seq![5u8, status, 0u8, 1u8]
            + octets@ + seq![(port / 256) as u8, (port % 256) as u8],
        reply_bytes(status, Some(BoundAddress::V6 { octets: long, port })) == seq![
            5u8,
            status,
            0u8,
            4u8,
        ] + long@ + seq![(port / 256) as u8, (port % 256) as u8],
        reply_bytes(status, None) == seq![5u8, status, 0u8, 1u8, 0u8, 0u8, 0u8, 0u8, 0u8, 0u8],
{
    assert(reply_bytes(status, Some(BoundAddress::V4 { octets, port })) =~= seq![
        5u8,
        status,
        0u8,
        1u8,
    ] + octets@ + seq![(port / 256) as u8, (port % 256) as u8]);
    assert(reply_bytes(status, Some(BoundAddress::V6 { octets: long, port })) =~= seq![
        5u8,
        status,
        0u8,
        4u8,
    ] + long@ + seq![(port / 256) as u8, (port % 256) as u8]);
}

// ---------------------------------------------------------------------------
// Sessions
// ---------------------------------------------------------------------------

/// What the entry does about the answer to its request.
#[derive(Debug, Clone, PartialEq, Eq)]
pub enum EntryStep {
    /// The session has ended.
    Stop,
    /// The answer is no reply: the session is reset.
    Fail,
    /// The reply goes to the client; bytes are transferred after it where `transfer` is set.
    Reply { reply: Vec<u8>, transfer: bool },
}

/// Takes the answer to a request: a reply goes to the client, and where it reports success
/// the transfer begins.
pub fn entry_answer(message: Option<ProxyMessage>) -> (step: EntryStep)
    ensures
        match message {
            Some(ProxyMessage::Write(reply)) => if reply@.len() < 2 {
                step is Fail
            } else {
                step matches EntryStep::Reply { reply: sent, transfer } && sent == reply
                    && transfer == (reply@[1] == 0)
            },
            _ => step is Stop,
        },
{
    match message {
        Some(ProxyMessage::Write(reply)) => {
            if reply.len() < 2 {
                return EntryStep::Fail;
            }
            let transfer: bool = reply[1] == 0;
            EntryStep::Reply { reply, transfer }
        },
        _ => EntryStep::Stop,
    }
}

/// What the exit does about a request.
#[derive(Debug, Clone, PartialEq, Eq)]
pub enum ExitStep {
    /// The session has ended.
    Stop,
    /// The request has no target: the session is reset.
    Fail,
    Connect { target: TargetAddress },
}

/// Takes a request: its target is connected to.
pub fn exit_request(message: Option<ProxyMessage>) -> (step: ExitStep)
    ensures
        match message {
            Some(ProxyMessage::Write(request)) => match step {
                ExitStep::Connect { target } => target_of(request@) == Some(target@),
                ExitStep::Fail => target_of(request@) is None,
                ExitStep::Stop => false,
            },
            _ => step is Stop,
        },
{
    match message {
        Some(ProxyMessage::Write(request)) => match target(request.as_slice()) {
            Some(target) => ExitStep::Connect { target },
            None => ExitStep::Fail,
        },
        _ => ExitStep::Stop,
    }
}

/// What the exit answers where the target cannot be connected to.
pub fn exit_refused() -> (messages: (ProxyMessage, ProxyMessage))
    ensures
        messages.0 matches ProxyMessage::Write(bytes) && bytes@ == reply_bytes(5, None),
        messages.1 == ProxyMessage::Close(CloseReason::Reset),
{
    (ProxyMessage::Write(reply(5, None)), ProxyMessage::Close(CloseReason::Reset))
}

/// What the exit answers once it is connected.
pub fn exit_connected(bound: BoundAddress) -> (message: ProxyMessage)
    ensures
        message matches ProxyMessage::Write(bytes) && bytes@ == reply_bytes(0, Some(bound)),
{
    ProxyMessage::Write(reply(0, Some(bound)))
}

/// Which directions of a connection are open.
#[derive(Debug, Clone, Copy, PartialEq, Eq, Structural)]
pub struct Transfer {
    pub read_open: bool,
    pub write_open: bool,
    pub close_reason: CloseReason,
}

/// What is done with the connection.
#[derive(Debug, Clone, PartialEq, Eq)]
pub enum TransferStep {
    /// These bytes are written to it.
    WriteAll { bytes: Vec<u8> },
    /// Nothing more is written to it.
    Shutdown,
    /// These bytes of it go to the session; no bytes mean that it has ended.
    Emit { bytes: Vec<u8> },
    /// The session has been closed.
    Stop,
    /// The connection has failed.
    Fail,
}

/// What a read of the connection came to.
#[derive(Debug, Clone, PartialEq, Eq)]
pub enum TransferRead {
    End,
    Bytes { bytes: Vec<u8> },
    Failed,
}

impl Transfer {
    pub fn new(close_reason: CloseReason) -> (transfer: Transfer)
        ensures
            transfer == (Transfer { read_open: true, write_open: true, close_reason }),
    {
        Transfer { read_open: true, write_open: true, close_reason }
    }

    /// A message of the session. Bytes are written; no bytes end the direction.
    pub fn on_message(&mut self, message: Option<ProxyMessage>) -> (step: TransferStep)
        ensures
            match message {
                Some(ProxyMessage::Write(bytes)) => if bytes@.len() == 0 {
                    &&& step is Shutdown
                    &&& *final(self) == (Transfer { write_open: false, ..*old(self) })
                } else {
                    &&& step == (TransferStep::WriteAll { bytes })
                    &&& *final(self) == *old(self)
                },
                _ => step is Stop && *final(self) == *old(self),
            },
    {
        match message {
            Some(ProxyMessage::Write(bytes)) => {
                if bytes.len() == 0 {
                    self.write_open = false;
                    TransferStep::Shutdown
                } else {
                    TransferStep::WriteAll { bytes }
                }
            },
            _ => TransferStep::Stop,
        }
    }

    /// A read of the connection. Bytes go to the session, and so does the end.
    pub fn on_read(&mut self, read: TransferRead) -> (step: TransferStep)
        ensures
            match read {
                TransferRead::End => {
                    &&& step matches TransferStep::Emit { bytes } && bytes@.len() == 0
                    &&& *final(self) == (Transfer { read_open: false, ..*old(self) })
                },
                TransferRead::Bytes { bytes } => {
                    &&& step == (TransferStep::Emit { bytes })
                    &&& *final(self) == *old(self)
                },
                TransferRead::Failed => step is Fail && *final(self) == *old(self),
            },
    {
        match read {
            TransferRead::End => {
                self.read_open = false;
                TransferStep::Emit { bytes: Vec::new() }
            },
            TransferRead::Bytes { bytes } => TransferStep::Emit { bytes },
            TransferRead::Failed => TransferStep::Fail,
        }
    }

    /// The message that ends the session, once both directions have ended.
    pub fn finished(&self) -> (message: Option<ProxyMessage>)
        ensures
            message == if !self.read_open && !self.write_open {
                Some(ProxyMessage::Close(self.close_reason))
            } else {
                None::<ProxyMessage>
            },
    {
        if !self.read_open && !self.write_open {
            Some(ProxyMessage::Close(self.close_reason))
        } else {
            None
        }
    }
}

} // verus!
