//! What a core and its shell hand to each other.
use vstd::prelude::*;

use crate::packet;
use crate::packet::TransportPacketError;
use crate::sequence;
use crate::sequence::{SequenceDrop, SequenceFilter};
use crate::wire::{Envelope, EnvelopeStamp};

verus! {

/// A transport channel of one node.
pub type ChannelId = u16;

/// A session, which is also the KCP conversation.
pub type ConvId = u64;

#[derive(Debug, Clone, Copy, PartialEq, Eq, Structural)]
pub enum CloseReason {
    LocalClosed,
    RemoteClosed,
    Reset,
    Error,
}

impl CloseReason {
    /// The byte that stands for the reason on the wire.
    pub open spec fn code(self) -> u8 {
        match self {
            CloseReason::LocalClosed => 0,
            CloseReason::RemoteClosed => 1,
            CloseReason::Reset => 2,
            CloseReason::Error => 3,
        }
    }

    pub open spec fn of_code(code: u8) -> CloseReason {
        if code == 0 {
            CloseReason::LocalClosed
        } else if code == 1 {
            CloseReason::RemoteClosed
        } else if code == 2 {
            CloseReason::Reset
        } else {
            CloseReason::Error
        }
    }

    pub fn as_code(&self) -> (code: u8)
        ensures
            code == self.code(),
            code <= 3,
    {
        match self {
            CloseReason::LocalClosed => 0,
            CloseReason::RemoteClosed => 1,
            CloseReason::Reset => 2,
            CloseReason::Error => 3,
        }
    }

    pub fn from_code(code: u8) -> (reason: Self)
        requires
            code <= 3,
        ensures
            reason == Self::of_code(code),
            reason.code() == code,
    {
        if code == 0 {
            CloseReason::LocalClosed
        } else if code == 1 {
            CloseReason::RemoteClosed
        } else if code == 2 {
            CloseReason::Reset
        } else {
            CloseReason::Error
        }
    }
}

#[derive(Debug, Clone, Copy, PartialEq, Eq, Structural)]
pub struct CoreMetrics {
    pub packets_received: u64,
    pub packets_sent: u64,
    pub packets_dropped: u64,
    pub authentication_failures: u64,
    pub freshness_drops: u64,
    pub replay_drops: u64,
    pub malformed_packets: u64,
    pub send_failures: u64,
    pub active_sessions: usize,
    pub active_sequences: usize,
    pub latest_seq_time: u32,
}

/// The metrics of a core that has done nothing yet.
pub open spec fn no_metrics() -> CoreMetrics {
    CoreMetrics {
        packets_received: 0,
        packets_sent: 0,
        packets_dropped: 0,
        authentication_failures: 0,
        freshness_drops: 0,
        replay_drops: 0,
        malformed_packets: 0,
        send_failures: 0,
        active_sessions: 0,
        active_sequences: 0,
        latest_seq_time: 0,
    }
}

impl Default for CoreMetrics {
    fn default() -> (metrics: Self)
        ensures
            metrics == no_metrics(),
    {
        CoreMetrics {
            packets_received: 0,
            packets_sent: 0,
            packets_dropped: 0,
            authentication_failures: 0,
            freshness_drops: 0,
            replay_drops: 0,
            malformed_packets: 0,
            send_failures: 0,
            active_sessions: 0,
            active_sequences: 0,
            latest_seq_time: 0,
        }
    }
}

/// One more than `counter`; a counter that is full stays full.
pub open spec fn bumped(counter: u64) -> u64 {
    if counter < u64::MAX {
        (counter + 1) as u64
    } else {
        counter
    }
}

pub fn bump(counter: u64) -> (next: u64)
    ensures
        next == bumped(counter),
{
    counter.saturating_add(1)
}

#[derive(Debug, Clone, PartialEq, Eq)]
pub enum CoreEvent {
    TransportPacketReceived { channel_id: ChannelId, bytes: Vec<u8> },
    TransportPacketSendFailed { channel_id: ChannelId, bytes: Vec<u8> },
    SessionOpen,
    SessionWrite { conv_id: ConvId, bytes: Vec<u8> },
    SessionClose { conv_id: ConvId, reason: CloseReason },
}

/// The contents of an event.
#[verifier::ext_equal]
pub enum EventState {
    TransportPacketReceived { channel_id: ChannelId, bytes: Seq<u8> },
    TransportPacketSendFailed { channel_id: ChannelId, bytes: Seq<u8> },
    SessionOpen,
    SessionWrite { conv_id: ConvId, bytes: Seq<u8> },
    SessionClose { conv_id: ConvId, reason: CloseReason },
}

impl View for CoreEvent {
    type V = EventState;

    open spec fn view(&self) -> EventState {
        match self {
            CoreEvent::TransportPacketReceived {
                channel_id,
                bytes,
            } => EventState::TransportPacketReceived { channel_id: *channel_id, bytes: bytes@ },
            CoreEvent::TransportPacketSendFailed {
                channel_id,
                bytes,
            } => EventState::TransportPacketSendFailed { channel_id: *channel_id, bytes: bytes@ },
            CoreEvent::SessionOpen => EventState::SessionOpen,
            CoreEvent::SessionWrite { conv_id, bytes } => EventState::SessionWrite {
                conv_id: *conv_id,
                bytes: bytes@,
            },
            CoreEvent::SessionClose { conv_id, reason } => EventState::SessionClose {
                conv_id: *conv_id,
                reason: *reason,
            },
        }
    }
}

#[derive(Debug, PartialEq, Eq)]
pub enum CoreAction {
    SendTransportPacket { channel_id: ChannelId, bytes: Vec<u8> },
    OpenSession { conv_id: ConvId },
    WriteSession { conv_id: ConvId, bytes: Vec<u8> },
    CloseSession { conv_id: ConvId, reason: CloseReason },
}

/// The contents of an action.
#[verifier::ext_equal]
pub enum ActionState {
    SendTransportPacket { channel_id: ChannelId, bytes: Seq<u8> },
    OpenSession { conv_id: ConvId },
    WriteSession { conv_id: ConvId, bytes: Seq<u8> },
    CloseSession { conv_id: ConvId, reason: CloseReason },
}

impl View for CoreAction {
    type V = ActionState;

    open spec fn view(&self) -> ActionState {
        match self {
            CoreAction::SendTransportPacket {
                channel_id,
                bytes,
            } => ActionState::SendTransportPacket { channel_id: *channel_id, bytes: bytes@ },
            CoreAction::OpenSession { conv_id } => ActionState::OpenSession { conv_id: *conv_id },
            CoreAction::WriteSession { conv_id, bytes } => ActionState::WriteSession {
                conv_id: *conv_id,
                bytes: bytes@,
            },
            CoreAction::CloseSession { conv_id, reason } => ActionState::CloseSession {
                conv_id: *conv_id,
                reason: *reason,
            },
        }
    }
}

/// The contents of a list of actions.
pub open spec fn action_states(actions: Seq<CoreAction>) -> Seq<ActionState> {
    Seq::new(actions.len(), |i: int| actions[i]@)
}

/// Pushing an action appends its contents.
pub proof fn lemma_action_push(actions: Seq<CoreAction>, action: CoreAction)
    ensures
        action_states(actions.push(action)) == action_states(actions).push(action@),
{
    assert(action_states(actions.push(action)) =~= action_states(actions).push(action@));
}

#[derive(Debug, Clone, Copy, PartialEq, Eq, Structural)]
pub enum CoreEventResult {
    /// The event is dealt with; there is nothing to report.
    Handled,
    SessionCreated { conv_id: ConvId },
    SessionWriteBlocked,
}

/// The wall clock time of a core.
pub open spec fn global_time(boot_time_ms: u64, elapsed_ms: u64) -> u64 {
    if boot_time_ms + elapsed_ms <= u64::MAX {
        (boot_time_ms + elapsed_ms) as u64
    } else {
        u64::MAX
    }
}

/// The tick that packets are stamped with.
pub open spec fn tick_at(boot_time_ms: u64, elapsed_ms: u64) -> u32 {
    (global_time(boot_time_ms, elapsed_ms) / 1024 % 0x400_0000) as u32
}

pub fn current_tick(boot_time_ms: u64, elapsed_ms: u64) -> (tick: u32)
    ensures
        tick == tick_at(boot_time_ms, elapsed_ms),
        tick < 0x400_0000,
{
    (boot_time_ms.saturating_add(elapsed_ms) / 1024 % 0x400_0000) as u32
}

/// Counts why a transport packet could not be opened.
pub open spec fn count_packet_error(
    metrics: CoreMetrics,
    error: TransportPacketError,
) -> CoreMetrics {
    match error {
        TransportPacketError::InvalidLength => CoreMetrics {
            packets_dropped: bumped(metrics.packets_dropped),
            ..metrics
        },
        TransportPacketError::Authentication => CoreMetrics {
            authentication_failures: bumped(metrics.authentication_failures),
            ..metrics
        },
        TransportPacketError::MalformedEnvelope => CoreMetrics {
            malformed_packets: bumped(metrics.malformed_packets),
            ..metrics
        },
    }
}

pub fn receive_transport_packet(
    envelope_key: &[u8; 16],
    metrics: &mut CoreMetrics,
    bytes: &Vec<u8>,
) -> (envelope: Option<Envelope>)
    ensures
        match packet::decode_packet(envelope_key@, bytes@) {
            Ok(e) => {
                &&& envelope is Some
                &&& envelope->0@ == e
                &&& *final(metrics) == *old(metrics)
            },
            Err(error) => {
                &&& envelope is None
                &&& *final(metrics) == count_packet_error(*old(metrics), error)
            },
        },
        envelope is Some ==> packet::envelope_within(envelope->0@, bytes@.len()),
{
    match packet::decode_transport_packet(envelope_key, bytes) {
        Ok(envelope) => Some(envelope),
        Err(TransportPacketError::InvalidLength) => {
            metrics.packets_dropped = bump(metrics.packets_dropped);
            None
        },
        Err(TransportPacketError::Authentication) => {
            metrics.authentication_failures = bump(metrics.authentication_failures);
            None
        },
        Err(TransportPacketError::MalformedEnvelope) => {
            metrics.malformed_packets = bump(metrics.malformed_packets);
            None
        },
    }
}

/// Counts why a packet was dropped as stale or replayed.
pub open spec fn count_sequence_drop(metrics: CoreMetrics, drop: SequenceDrop) -> CoreMetrics {
    match drop {
        SequenceDrop::Freshness => CoreMetrics {
            freshness_drops: bumped(metrics.freshness_drops),
            ..metrics
        },
        SequenceDrop::Replay => CoreMetrics {
            replay_drops: bumped(metrics.replay_drops),
            ..metrics
        },
    }
}

/// The windows, the metrics and the decision after a packet with this stamp.
pub open spec fn checked_sequence(
    filter: sequence::FilterState,
    metrics: CoreMetrics,
    current_time: u32,
    stamp: EnvelopeStamp,
) -> (sequence::FilterState, CoreMetrics, bool) {
    let (after, result) = sequence::check(
        filter,
        current_time,
        stamp.time,
        stamp.seq_id,
        stamp.seq_no,
    );
    match result {
        Ok(_) => (after, metrics, true),
        Err(drop) => (after, count_sequence_drop(metrics, drop), false),
    }
}

pub fn check_sequence(
    sequence_filter: &mut SequenceFilter,
    metrics: &mut CoreMetrics,
    current_time: u32,
    stamp: EnvelopeStamp,
) -> (accepted: bool)
    requires
        old(sequence_filter).wf(),
    ensures
        final(sequence_filter).wf(),
        (final(sequence_filter)@, *final(metrics), accepted) == checked_sequence(
            old(sequence_filter)@,
            *old(metrics),
            current_time,
            stamp,
        ),
{
    match sequence_filter.check_and_insert(current_time, stamp.time, stamp.seq_id, stamp.seq_no) {
        Ok(()) => true,
        Err(SequenceDrop::Freshness) => {
            metrics.freshness_drops = bump(metrics.freshness_drops);
            false
        },
        Err(SequenceDrop::Replay) => {
            metrics.replay_drops = bump(metrics.replay_drops);
            false
        },
    }
}

/// The tick of a packet, unwrapped to 32 bits around the current tick.
pub open spec fn unwrapped_tick(
    boot_time_ms: u64,
    elapsed_ms: u64,
    packet_time: u32,
) -> u32 {
    let now = (global_time(boot_time_ms, elapsed_ms) / 1024) as int;
    ((now - sequence::tick_distance((now % 0x400_0000) as u32, packet_time)) % 0x1_0000_0000) as u32
}

/// Remembers the latest packet tick.
pub open spec fn noted_sequence(
    metrics: CoreMetrics,
    boot_time_ms: u64,
    elapsed_ms: u64,
    packet_time: u32,
    first: bool,
) -> CoreMetrics {
    let tick = unwrapped_tick(boot_time_ms, elapsed_ms, packet_time);
    if first || tick.wrapping_sub(metrics.latest_seq_time) < 0x8000_0000 {
        CoreMetrics { latest_seq_time: tick, ..metrics }
    } else {
        metrics
    }
}

pub fn note_latest_sequence(
    metrics: &mut CoreMetrics,
    boot_time_ms: u64,
    elapsed_ms: u64,
    packet_time: u32,
    first: bool,
)
    ensures
        *final(metrics) == noted_sequence(
            *old(metrics),
            boot_time_ms,
            elapsed_ms,
            packet_time,
            first,
        ),
{
    let now: u64 = boot_time_ms.saturating_add(elapsed_ms) / 1024;
    let distance: i32 = sequence::time_diff((now % 0x400_0000) as u32, packet_time);
    let low: u32 = (now % 0x1_0000_0000) as u32;
    let packet_tick: u32 = if distance >= 0 {
        low.wrapping_sub(distance as u32)
    } else {
        low.wrapping_add((-distance) as u32)
    };
    if first || packet_tick.wrapping_sub(metrics.latest_seq_time) < 0x8000_0000 {
        metrics.latest_seq_time = packet_tick;
    }
}

/// Packets are stamped with the wall clock in steps of 1024 ms, on a circle of 2^26 steps.
pub proof fn law_tick_follows_the_clock(boot_time_ms: u64, elapsed_ms: u64, later_ms: u64)
    requires
        elapsed_ms <= later_ms,
        boot_time_ms + later_ms <= u64::MAX,
    ensures
        ({
            let now = tick_at(boot_time_ms, elapsed_ms) as int;
            let later = tick_at(boot_time_ms, later_ms) as int;
            let steps = (later - now) % 0x400_0000;
            let passed = later_ms - elapsed_ms;
            &&& 0 <= now < 0x400_0000
            &&& passed < 0x400_0000 * 1024 - 1024 ==> steps * 1024 < passed + 1024 && passed
                < steps * 1024 + 1024
            &&& (boot_time_ms + elapsed_ms < 0x400_0000 * 1024 ==> now == (boot_time_ms
                + elapsed_ms) / 1024)
        }),
{
    let a = (boot_time_ms + elapsed_ms) as int;
    let b = (boot_time_ms + later_ms) as int;
    let x = a / 1024;
    let y = b / 1024;
    assert((y % 0x400_0000 - x % 0x400_0000) % 0x400_0000 == (y - x) % 0x400_0000) by {
        vstd::arithmetic::div_mod::lemma_sub_mod_noop(y, x, 0x400_0000);
    }
}

/// The tick of a packet is unwrapped to the moment next to now that is stamped so.
pub proof fn law_unwrapped_tick_is_near(boot_time_ms: u64, elapsed_ms: u64, packet_time: u32)
    requires
        packet_time < 0x400_0000,
        boot_time_ms + elapsed_ms <= u64::MAX,
    ensures
        ({
            let now = (boot_time_ms + elapsed_ms) / 1024;
            let tick = unwrapped_tick(boot_time_ms, elapsed_ms, packet_time);
            &&& tick as int % 0x400_0000 == packet_time
            &&& (now - tick) % 0x1_0000_0000 <= 0x200_0000 || (tick - now) % 0x1_0000_0000
                <= 0x200_0000
        }),
{
    let now = (boot_time_ms + elapsed_ms) / 1024;
    let d = sequence::tick_distance((now % 0x400_0000) as u32, packet_time);
    let far = now - d;
    assert(far % 0x1_0000_0000 % 0x400_0000 == far % 0x400_0000) by {
        vstd::arithmetic::div_mod::lemma_mod_mod(far, 0x400_0000, 64);
    }
}

/// The latest tick that is remembered never goes back, and is the first packet's to begin
/// with.
pub proof fn law_latest_tick_goes_forward(
    metrics: CoreMetrics,
    boot_time_ms: u64,
    elapsed_ms: u64,
    packet_time: u32,
    first: bool,
)
    ensures
        ({
            let after = noted_sequence(metrics, boot_time_ms, elapsed_ms, packet_time, first);
            let tick = unwrapped_tick(boot_time_ms, elapsed_ms, packet_time);
            let ahead = (tick - metrics.latest_seq_time) % 0x1_0000_0000;
            &&& after == (CoreMetrics { latest_seq_time: after.latest_seq_time, ..metrics })
            &&& after.latest_seq_time == if first || ahead < 0x8000_0000 {
                tick
            } else {
                metrics.latest_seq_time
            }
        }),
{
}

/// Each reason has a code of its own, from 0 to 3, and is read back from it.
pub proof fn law_close_codes(reason: CloseReason, other: CloseReason)
    ensures
        reason.code() <= 3,
        CloseReason::of_code(reason.code()) == reason,
        reason.code() == other.code() ==> reason == other,
        CloseReason::LocalClosed.code() == 0,
        CloseReason::RemoteClosed.code() == 1,
        CloseReason::Reset.code() == 2,
        CloseReason::Error.code() == 3,
{
}

} // verus!
