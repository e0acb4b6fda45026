//! What a session does: packets of the peer come in, the control block is updated until the
//! session expires, and messages go out to the local connection.
use vstd::prelude::*;

use crate::octets;
use crate::tunnel::socket::KcpStatus;

verus! {

/// The length of the header of a segment.
pub const KCP_OVERHEAD: usize = 24;

/// The session is closed, and takes no more input.
#[derive(Debug, Clone, Copy, PartialEq, Eq, Structural)]
pub struct SessionClosedError;

/// What becomes of a packet of the peer.
#[derive(Debug, Clone, Copy, PartialEq, Eq, Structural)]
pub enum InputStep {
    /// Too short for a segment: dropped.
    TooShort,
    /// Goes to the control block, after its conversation id has been replaced by this one.
    Input { set_conv: Option<u32> },
}

/// The conversation id of a packet: a little-endian number in its first four bytes.
pub open spec fn conv_in(packet: Seq<u8>) -> u32 {
    octets::le_at(packet, 0, 4) as u32
}

/// `kcp::get_conv`: reads the conversation id, a little-endian number in the first four
/// bytes. It panics on a packet that is shorter than the header of a segment.
#[verifier::external_body]
pub(crate) fn get_conv(packet: &[u8]) -> (conv: u32)
    requires
        packet@.len() >= KCP_OVERHEAD,
    ensures
        conv == octets::le_at(packet@, 0, 4),
{
    ::kcp::get_conv(packet)
}

/// What becomes of a packet in a session whose conversation id is `conv`.
pub open spec fn input_step(packet: Seq<u8>, conv: u32, waiting_conv: bool) -> InputStep {
    if packet.len() < KCP_OVERHEAD {
        InputStep::TooShort
    } else if !waiting_conv && conv != conv_in(packet) {
        InputStep::Input { set_conv: Some(conv_in(packet)) }
    } else {
        InputStep::Input { set_conv: None }
    }
}

/// Takes a packet of the peer, which may allocate another conversation id than `conv`, the
/// one of the session.
pub fn take_input(packet: &[u8], conv: u32, waiting_conv: bool) -> (step: InputStep)
    ensures
        step == input_step(packet@, conv, waiting_conv),
{
    if packet.len() < KCP_OVERHEAD {
        return InputStep::TooShort;
    }
    let input_conv: u32 = get_conv(packet);
    if !waiting_conv && conv != input_conv {
        return InputStep::Input { set_conv: Some(input_conv) };
    }
    InputStep::Input { set_conv: None }
}

/// What one turn of the updater does.
#[derive(Debug, Clone, Copy, PartialEq, Eq, Structural)]
pub enum UpdateStep {
    /// The session is closed and nothing is left to send, or it has been silent for far too
    /// long: the updater stops.
    Stop,
    /// The control block is updated. Where `close` is set the session is closed first, where
    /// `flush` is set the window is flushed first.
    Update { close: bool, flush: bool },
}

/// A session of a server has been silent for longer than `factor` times its limit.
pub open spec fn silent(
    is_client: bool,
    elapsed_ns: u128,
    expire_ns: Option<u128>,
    factor: int,
) -> bool {
    !is_client && (expire_ns matches Some(limit) && elapsed_ns > factor * limit)
}

pub open spec fn update_step(
    is_closed: bool,
    kcp: KcpStatus,
    is_client: bool,
    elapsed_ns: u128,
    expire_ns: Option<u128>,
) -> UpdateStep {
    if is_closed && kcp.wait_snd == 0 {
        UpdateStep::Stop
    } else if silent(is_client, elapsed_ns, expire_ns, 2) {
        UpdateStep::Stop
    } else {
        UpdateStep::Update {
            close: silent(is_client, elapsed_ns, expire_ns, 1) && !is_closed,
            flush: kcp.full() && !kcp.waiting_conv,
        }
    }
}

/// One turn of the updater. A session of a server closes itself once it has been silent for
/// longer than its limit, and is dropped at twice the limit.
pub fn plan_update(
    is_closed: bool,
    kcp: &KcpStatus,
    is_client: bool,
    elapsed_ns: u128,
    expire_ns: Option<u128>,
) -> (step: UpdateStep)
    requires
        expire_ns matches Some(limit) ==> 2 * limit <= u128::MAX,
    ensures
        step == update_step(is_closed, *kcp, is_client, elapsed_ns, expire_ns),
{
    if is_closed && kcp.can_close() {
        return UpdateStep::Stop;
    }
    let mut close: bool = false;
    if !is_client {
        if let Some(limit) = expire_ns {
            if elapsed_ns > limit {
                if elapsed_ns > limit * 2 {
                    return UpdateStep::Stop;
                }
                close = !is_closed;
            }
        }
    }
    UpdateStep::Update { close, flush: kcp.need_flush() }
}

pub open spec fn update_time(now_ms: u64, asked_ms: Option<u32>) -> u64 {
    let wait = match asked_ms {
        Some(wait) => wait as int,
        None => 10,
    };
    if now_ms + wait > u64::MAX {
        u64::MAX
    } else {
        (now_ms + wait) as u64
    }
}

/// When the next turn comes: at the time that the control block asks for, or 10 ms later
/// where the update failed.
pub fn next_update(now_ms: u64, asked_ms: Option<u32>) -> (time_ms: u64)
    ensures
        time_ms == update_time(now_ms, asked_ms),
{
    match asked_ms {
        Some(wait) => now_ms.saturating_add(wait as u64),
        None => now_ms.saturating_add(10),
    }
}

/// A session that is silent for long enough is closed before it is dropped: what would drop
/// it would also close it.
pub proof fn law_silent_session_ends(
    kcp: KcpStatus,
    elapsed_ns: u128,
    limit: u128,
    is_closed: bool,
)
    requires
        elapsed_ns > limit,
    ensures
        update_step(is_closed, kcp, false, elapsed_ns, Some(limit)) matches UpdateStep::Update {
            close,
            ..
        } ==> is_closed || close,
        elapsed_ns > 2 * limit ==> update_step(
            is_closed,
            kcp,
            false,
            elapsed_ns,
            Some(limit),
        ) is Stop,
{
}

/// A session of a client never expires: it stops only once it is closed and has sent
/// everything.
pub proof fn law_client_session_stays(
    kcp: KcpStatus,
    elapsed_ns: u128,
    expire_ns: Option<u128>,
    is_closed: bool,
)
    ensures
        update_step(is_closed, kcp, true, elapsed_ns, expire_ns) is Stop <==> is_closed
            && kcp.wait_snd == 0,
        update_step(is_closed, kcp, true, elapsed_ns, expire_ns) matches UpdateStep::Update {
            close,
            ..
        } ==> !close,
{
}

/// Where the delivery of messages stands.
#[derive(Debug, Clone, Copy, PartialEq, Eq, Structural)]
pub enum Delivery {
    /// `size` bytes wait in the buffer and are sent before anything else.
    Sending { size: usize },
    /// The next message is asked for.
    Peeking,
    /// A message of `size` bytes is read into the buffer.
    Reading { size: usize },
    /// `size` bytes of the buffer are offered to the connection.
    Offering { size: usize },
    /// There is nothing more to deliver for now; `size` bytes wait in the buffer.
    Done { size: usize },
    /// The connection is gone.
    Broken,
}

/// What happened.
#[derive(Debug, Clone, Copy, PartialEq, Eq, Structural)]
pub enum DeliveryEvent {
    Sent,
    SendFailed,
    Peeked { size: Option<usize> },
    Read { size: Option<usize> },
    Accepted,
    Full,
    Closed,
}

/// Where a delivery starts, with `size` bytes left over from the one before.
pub open spec fn first_delivery(size: usize) -> Delivery {
    if size > 0 {
        Delivery::Sending { size }
    } else {
        Delivery::Peeking
    }
}

/// What is left over from one delivery is the first to go in the next one.
pub fn begin_delivery(size: usize) -> (delivery: Delivery)
    ensures
        delivery == first_delivery(size),
{
    if size > 0 {
        Delivery::Sending { size }
    } else {
        Delivery::Peeking
    }
}

/// The next step of a delivery. An event that does not belong to the step changes nothing.
pub open spec fn delivered(delivery: Delivery, event: DeliveryEvent) -> Delivery {
    match (delivery, event) {
        (Delivery::Sending { .. }, DeliveryEvent::Sent) => Delivery::Peeking,
        (Delivery::Sending { .. }, DeliveryEvent::SendFailed) => Delivery::Broken,
        (Delivery::Peeking, DeliveryEvent::Peeked { size: Some(size) }) => if size > 0 {
            Delivery::Reading { size }
        } else {
            Delivery::Peeking
        },
        (Delivery::Peeking, DeliveryEvent::Peeked { size: None }) => Delivery::Done { size: 0 },
        (Delivery::Reading { .. }, DeliveryEvent::Read { size: Some(size) }) => Delivery::Offering {
            size,
        },
        (Delivery::Reading { .. }, DeliveryEvent::Read { size: None }) => Delivery::Peeking,
        (Delivery::Offering { .. }, DeliveryEvent::Accepted) => Delivery::Peeking,
        (Delivery::Offering { size }, DeliveryEvent::Full) => Delivery::Done { size },
        (Delivery::Offering { .. }, DeliveryEvent::Closed) => Delivery::Broken,
        (delivery, _) => delivery,
    }
}

/// Messages go to the connection one after the other. One that the connection has no room
/// for stays in the buffer and is the first to go the next time.
pub fn deliver(delivery: Delivery, event: DeliveryEvent) -> (next: Delivery)
    ensures
        next == delivered(delivery, event),
{
    match (delivery, event) {
        (Delivery::Sending { .. }, DeliveryEvent::Sent) => Delivery::Peeking,
        (Delivery::Sending { .. }, DeliveryEvent::SendFailed) => Delivery::Broken,
        (Delivery::Peeking, DeliveryEvent::Peeked { size: Some(size) }) => {
            if size > 0 {
                Delivery::Reading { size }
            } else {
                Delivery::Peeking
            }
        },
        (Delivery::Peeking, DeliveryEvent::Peeked { size: None }) => Delivery::Done { size: 0 },
        (Delivery::Reading { .. }, DeliveryEvent::Read { size: Some(size) }) => Delivery::Offering {
            size,
        },
        (Delivery::Reading { .. }, DeliveryEvent::Read { size: None }) => Delivery::Peeking,
        (Delivery::Offering { .. }, DeliveryEvent::Accepted) => Delivery::Peeking,
        (Delivery::Offering { size }, DeliveryEvent::Full) => Delivery::Done { size },
        (Delivery::Offering { .. }, DeliveryEvent::Closed) => Delivery::Broken,
        (delivery, _) => delivery,
    }
}

/// The bytes of the message that is on its way.
pub open spec fn held(delivery: Delivery) -> int {
    match delivery {
        Delivery::Sending { size } => size as int,
        Delivery::Offering { size } => size as int,
        Delivery::Done { size } => size as int,
        _ => 0,
    }
}

/// A message that has been read leaves the buffer only by being handed to the connection, or
/// when the connection is gone.
pub proof fn law_no_message_is_dropped(delivery: Delivery, event: DeliveryEvent)
    requires
        held(delivery) > 0,
    ensures
        held(delivered(delivery, event)) == held(delivery) || event is Sent || event is Accepted
            || delivered(delivery, event) is Broken,
{
}

} // verus!
