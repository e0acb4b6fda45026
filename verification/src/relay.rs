//! The relay state machine: it opens a packet, drops stale, replayed and misrouted ones, and
//! sends the rest on to the next channel of their route plan.
use vstd::prelude::*;

use crate::limits;
use crate::limits::{MIN_PADDING, TRANSPORT_PACKET_OVERHEAD};
use crate::machine;
use crate::machine::{
    bump, ChannelId, CoreAction, CoreEvent, CoreEventResult, CoreMetrics, EventState,
};
use crate::packet;
use crate::random;
use crate::random::RandomStream;
use crate::sequence;
use crate::sequence::SequenceFilter;
use crate::wire;
use crate::wire::{CHANNEL_ID_SIZE, ENVELOPE_FIXED_OVERHEAD};

verus! {

#[derive(Clone, PartialEq, Eq)]
pub struct RelayConfig {
    pub envelope_key: [u8; 16],
    pub random_seed: [u8; 16],
    pub boot_time_ms: u64,
    pub local_channels: Vec<ChannelId>,
    pub local_min_mtu: u32,
}

/// The state of a relay.
#[verifier::ext_equal]
pub struct RelayState {
    pub envelope_key: Seq<u8>,
    pub boot_time_ms: u64,
    pub local_channels: Seq<u16>,
    pub local_min_mtu: u32,
    pub random: random::RandomState,
    pub filter: sequence::FilterState,
    pub metrics: CoreMetrics,
}

pub open spec fn relay_init(config: RelayConfig) -> RelayState {
    RelayState {
        envelope_key: config.envelope_key@,
        boot_time_ms: config.boot_time_ms,
        local_channels: config.local_channels@,
        local_min_mtu: config.local_min_mtu,
        random: random::seeded(config.random_seed@),
        filter: Map::empty(),
        metrics: machine::no_metrics(),
    }
}

/// The length of the forwarded packet before padding.
pub open spec fn unpadded_len(e: wire::EnvelopeState) -> int {
    48 + 2 * (e.route_plan.len() - 1) + e.payload.len()
}

/// A packet that was opened and is neither stale nor replayed can be sent on.
pub open spec fn forwardable(s: RelayState, e: wire::EnvelopeState) -> bool {
    &&& e.route_plan.len() > 0
    &&& s.local_channels.contains(e.route_plan[0])
    &&& unpadded_len(e) + MIN_PADDING <= limits::transport_mtu(s.local_min_mtu)
}

/// The envelope for the next hop: the first channel is consumed, the padding is new, and
/// everything else stays as it was.
pub open spec fn next_envelope(s: RelayState, e: wire::EnvelopeState) -> wire::EnvelopeState {
    wire::EnvelopeState {
        route_plan: e.route_plan.drop_first(),
        padding_len: packet::random_padding(
            s.random,
            limits::transport_mtu(s.local_min_mtu) - unpadded_len(e),
        ),
        ..e
    }
}

/// The state after the checks on an opened packet, and whether it passed them.
pub open spec fn admitted(
    s: RelayState,
    elapsed_ms: u64,
    e: wire::EnvelopeState,
) -> (RelayState, bool) {
    let now = machine::tick_at(s.boot_time_ms, elapsed_ms);
    let (filter, metrics, accepted) = machine::checked_sequence(
        s.filter,
        s.metrics,
        now,
        wire::stamp_of(e),
    );
    if accepted {
        (
            RelayState {
                filter: sequence::without(filter, sequence::expiring(filter, now, 0)),
                metrics: machine::noted_sequence(
                    metrics,
                    s.boot_time_ms,
                    elapsed_ms,
                    e.time,
                    s.filter.len() == 0,
                ),
                ..s
            },
            true,
        )
    } else {
        (RelayState { filter, metrics, ..s }, false)
    }
}

pub open spec fn dropped(s: RelayState) -> RelayState {
    RelayState {
        metrics: CoreMetrics {
            packets_dropped: machine::bumped(s.metrics.packets_dropped),
            ..s.metrics
        },
        ..s
    }
}

/// What becomes of a transport packet.
pub open spec fn forwarded(
    s: RelayState,
    elapsed_ms: u64,
    bytes: Seq<u8>,
) -> (RelayState, Seq<machine::ActionState>) {
    match packet::decode_packet(s.envelope_key, bytes) {
        Err(error) => (
            RelayState { metrics: machine::count_packet_error(s.metrics, error), ..s },
            Seq::empty(),
        ),
        Ok(e) => {
            let (checked, accepted) = admitted(s, elapsed_ms, e);
            if !accepted {
                (checked, Seq::empty())
            } else if !forwardable(checked, e) {
                (dropped(checked), Seq::empty())
            } else {
                let next = next_envelope(checked, e);
                let padded = random::skip_bytes(checked.random, 8);
                (
                    RelayState {
                        random: random::skip_bytes(padded, 16),
                        metrics: CoreMetrics {
                            packets_sent: machine::bumped(checked.metrics.packets_sent),
                            ..checked.metrics
                        },
                        ..checked
                    },
                    seq![
                        machine::ActionState::SendTransportPacket {
                            channel_id: e.route_plan[0],
                            bytes: packet::encode_packet(s.envelope_key, padded, next),
                        },
                    ],
                )
            }
        },
    }
}

/// What becomes of an event. A relay has no sessions.
pub open spec fn relay_step(
    s: RelayState,
    elapsed_ms: u64,
    event: EventState,
) -> (RelayState, Seq<machine::ActionState>) {
    match event {
        EventState::TransportPacketReceived { bytes, .. } => forwarded(
            RelayState {
                metrics: CoreMetrics {
                    packets_received: machine::bumped(s.metrics.packets_received),
                    ..s.metrics
                },
                ..s
            },
            elapsed_ms,
            bytes,
        ),
        EventState::TransportPacketSendFailed { .. } => (
            RelayState {
                metrics: CoreMetrics {
                    send_failures: machine::bumped(s.metrics.send_failures),
                    ..s.metrics
                },
                ..s
            },
            Seq::empty(),
        ),
        _ => (s, Seq::empty()),
    }
}

/// The event comes from a channel, not from a session.
pub open spec fn is_transport_event(event: EventState) -> bool {
    event is TransportPacketReceived || event is TransportPacketSendFailed
}

/// Every packet that an action sends opens, under the relay's key, to the received envelope
/// without its first channel; tick, sender, packet number and payload are as they were.
pub open spec fn consumes_one_hop(
    key: Seq<u8>,
    received: Seq<u8>,
    action: machine::ActionState,
) -> bool {
    match (packet::decode_packet(key, received), action) {
        (
            Ok(e),
            machine::ActionState::SendTransportPacket { channel_id, bytes },
        ) => match packet::decode_packet(key, bytes) {
            Ok(next) => {
                &&& e.route_plan.len() > 0
                &&& channel_id == e.route_plan[0]
                &&& next.route_plan == e.route_plan.drop_first()
                &&& wire::stamp_of(next) == wire::stamp_of(e)
                &&& next.payload == e.payload
            },
            Err(_) => false,
        },
        _ => false,
    }
}

/// A packet that an action sends fits the transmission unit of the relay's channels.
pub open spec fn fits_channels(s: RelayState, action: machine::ActionState) -> bool {
    action matches machine::ActionState::SendTransportPacket { bytes, .. } ==> bytes.len()
        <= limits::transport_mtu(s.local_min_mtu)
}

pub struct RelayCore {
    config: RelayConfig,
    random: RandomStream,
    sequence_filter: SequenceFilter,
    metrics: CoreMetrics,
}

impl View for RelayCore {
    type V = RelayState;

    closed spec fn view(&self) -> RelayState {
        RelayState {
            envelope_key: self.config.envelope_key@,
            boot_time_ms: self.config.boot_time_ms,
            local_channels: self.config.local_channels@,
            local_min_mtu: self.config.local_min_mtu,
            random: self.random@,
            filter: self.sequence_filter@,
            metrics: self.metrics,
        }
    }
}

fn contains_channel(channels: &Vec<ChannelId>, channel_id: ChannelId) -> (yes: bool)
    ensures
        yes == channels@.contains(channel_id),
{
    let mut i: usize = 0;
    while i < channels.len()
        invariant
            i <= channels@.len(),
            forall|j: int| 0 <= j < i ==> channels@[j] != channel_id,
        decreases channels@.len() - i,
    {
        if channels[i] == channel_id {
            assert(channels@[i as int] == channel_id);
            return true;
        }
        i = i + 1;
    }
    false
}

impl RelayCore {
    pub closed spec fn wf(&self) -> bool {
        self.sequence_filter.wf()
    }

    pub fn new(config: RelayConfig) -> (relay: Self)
        ensures
            relay.wf(),
            relay@ == relay_init(config),
    {
        Self {
            random: RandomStream::new(config.random_seed),
            sequence_filter: SequenceFilter::default(),
            metrics: CoreMetrics::default(),
            config,
        }
    }

    pub fn metrics(&self) -> (metrics: CoreMetrics)
        ensures
            metrics == (CoreMetrics {
                active_sequences: self@.filter.len() as usize,
                ..self@.metrics
            }),
            self@.filter.len() <= usize::MAX,
    {
        let mut metrics = self.metrics;
        metrics.active_sequences = self.sequence_filter.len();
        metrics
    }

    pub fn handle_event(
        &mut self,
        elapsed_ms: u64,
        event: CoreEvent,
        actions: &mut Vec<CoreAction>,
    ) -> (result: CoreEventResult)
        requires
            old(self).wf(),
            is_transport_event(event@),
        ensures
            final(self).wf(),
            result == CoreEventResult::Handled,
            final(self)@ == relay_step(old(self)@, elapsed_ms, event@).0,
            machine::action_states(final(actions)@) == machine::action_states(old(actions)@)
                + relay_step(old(self)@, elapsed_ms, event@).1,
            event@ matches EventState::TransportPacketReceived { bytes, .. } ==> forall|i: int|
                0 <= i < relay_step(old(self)@, elapsed_ms, event@).1.len() ==> consumes_one_hop(
                    old(self)@.envelope_key,
                    bytes,
                    #[trigger] relay_step(old(self)@, elapsed_ms, event@).1[i],
                ) && fits_channels(
                    old(self)@,
                    relay_step(old(self)@, elapsed_ms, event@).1[i],
                ),
    {
        match event {
            CoreEvent::TransportPacketReceived { bytes, .. } => {
                self.metrics.packets_received = bump(self.metrics.packets_received);
                self.forward_packet(elapsed_ms, &bytes, actions);
                CoreEventResult::Handled
            },
            CoreEvent::TransportPacketSendFailed { .. } => {
                self.metrics.send_failures = bump(self.metrics.send_failures);
                assert(machine::action_states(actions@) + Seq::<machine::ActionState>::empty()
                    =~= machine::action_states(actions@));
                CoreEventResult::Handled
            },
            _ => CoreEventResult::Handled,
        }
    }

    /// A relay has no timers.
    pub fn poll(&mut self, _elapsed_ms: u64, _actions: &mut Vec<CoreAction>)
        ensures
            *final(self) == *old(self),
            *final(_actions) == *old(_actions),
    {
    }

    pub fn next_deadline(&self, _elapsed_ms: u64) -> (deadline: u64)
        ensures
            deadline == u64::MAX,
    {
        u64::MAX
    }

    fn forward_packet(
        &mut self,
        elapsed_ms: u64,
        bytes: &Vec<u8>,
        actions: &mut Vec<CoreAction>,
    )
        requires
            old(self).wf(),
        ensures
            final(self).wf(),
            final(self)@ == forwarded(old(self)@, elapsed_ms, bytes@).0,
            machine::action_states(final(actions)@) == machine::action_states(old(actions)@)
                + forwarded(old(self)@, elapsed_ms, bytes@).1,
            forall|i: int|
                0 <= i < forwarded(old(self)@, elapsed_ms, bytes@).1.len() ==> consumes_one_hop(
                    old(self)@.envelope_key,
                    bytes@,
                    #[trigger] forwarded(old(self)@, elapsed_ms, bytes@).1[i],
                ) && fits_channels(old(self)@, forwarded(old(self)@, elapsed_ms, bytes@).1[i]),
    {
        let current_time: u32 = machine::current_tick(self.config.boot_time_ms, elapsed_ms);
        let first_sequence: bool = self.sequence_filter.len() == 0;
        assert(machine::action_states(actions@) + Seq::<machine::ActionState>::empty()
            =~= machine::action_states(actions@));
        let mut envelope = match machine::receive_transport_packet(
            &self.config.envelope_key,
            &mut self.metrics,
            bytes,
        ) {
            Some(envelope) => envelope,
            None => {
                return ;
            },
        };
        let ghost e = envelope@;
        proof {
            packet::lemma_opened_fits(self.config.envelope_key@, bytes@);
        }
        let stamp = envelope.stamp();
        if !machine::check_sequence(
            &mut self.sequence_filter,
            &mut self.metrics,
            current_time,
            stamp,
        ) {
            return ;
        }
        let _ = self.sequence_filter.remove_expired(current_time, 0);
        machine::note_latest_sequence(
            &mut self.metrics,
            self.config.boot_time_ms,
            elapsed_ms,
            stamp.time,
            first_sequence,
        );
        let ghost checked = self@;
        assert(checked == admitted(old(self)@, elapsed_ms, e).0);
        if envelope.route_plan.len() == 0 {
            self.metrics.packets_dropped = bump(self.metrics.packets_dropped);
            return ;
        }
        let channel_id: ChannelId = envelope.route_plan[0];
        if !contains_channel(&self.config.local_channels, channel_id) {
            self.metrics.packets_dropped = bump(self.metrics.packets_dropped);
            return ;
        }
        let _ = envelope.route_plan.remove(0);
        assert(envelope.route_plan@ =~= e.route_plan.drop_first());
        let unpadded_len: usize = TRANSPORT_PACKET_OVERHEAD + ENVELOPE_FIXED_OVERHEAD
            + envelope.route_plan.len() * CHANNEL_ID_SIZE + envelope.payload.len();
        let local_min_mtu: usize = limits::effective_transport_mtu(self.config.local_min_mtu);
        if unpadded_len + MIN_PADDING > local_min_mtu {
            self.metrics.packets_dropped = bump(self.metrics.packets_dropped);
            return ;
        }
        let room: usize = local_min_mtu - unpadded_len;
        envelope.padding_len = packet::choose_padding(&mut self.random, room);
        assert(envelope@ =~= next_envelope(checked, e));
        let bytes_out = packet::encode_transport_packet(
            &self.config.envelope_key,
            &mut self.random,
            &envelope,
        );
        self.metrics.packets_sent = bump(self.metrics.packets_sent);
        let action = CoreAction::SendTransportPacket { channel_id, bytes: bytes_out };
        proof {
            machine::lemma_action_push(actions@, action);
            let sent = forwarded(old(self)@, elapsed_ms, bytes@).1;
            assert(sent =~= seq![action@]);
            assert(machine::action_states(actions@).push(action@) =~= machine::action_states(
                actions@,
            ) + sent);
        }
        actions.push(action);
    }
}

// ---------------------------------------------------------------------------
// Laws
// ---------------------------------------------------------------------------

/// A packet that was sent on is not sent on again as long as the window of its sender is
/// kept.
pub proof fn law_relay_forwards_once(
    s: RelayState,
    elapsed_ms: u64,
    later_ms: u64,
    bytes: Seq<u8>,
)
    requires
        s.filter.dom().finite(),
        forwarded(s, elapsed_ms, bytes).1.len() > 0,
        forwarded(s, elapsed_ms, bytes).0.filter.contains_key(
            packet::decode_packet(s.envelope_key, bytes)->Ok_0.seq_id,
        ),
    ensures
        forwarded(forwarded(s, elapsed_ms, bytes).0, later_ms, bytes).1.len() == 0,
{
    let e = packet::decode_packet(s.envelope_key, bytes)->Ok_0;
    let now = machine::tick_at(s.boot_time_ms, elapsed_ms);
    let (filter, _result) = sequence::check(s.filter, now, e.time, e.seq_id, e.seq_no);
    sequence::law_expiring(filter, now, 0);
    let after = forwarded(s, elapsed_ms, bytes).0;
    assert(after.filter[e.seq_id] == filter[e.seq_id]);
}

/// A relay after a row of events, each with the time at which it comes.
pub open spec fn relay_history(s: RelayState, events: Seq<(u64, EventState)>) -> RelayState
    decreases events.len(),
{
    if events.len() == 0 {
        s
    } else {
        let (elapsed_ms, event) = events.last();
        relay_step(relay_history(s, events.drop_last()), elapsed_ms, event).0
    }
}

/// The events come one after the other, from `start` up to `end`.
pub open spec fn in_order(start: u64, events: Seq<(u64, EventState)>, end: u64) -> bool
    decreases events.len(),
{
    if events.len() == 0 {
        start <= end
    } else {
        events.last().0 <= end && in_order(start, events.drop_last(), events.last().0)
    }
}

/// The time of a relay in ticks.
spec fn ticks(s: RelayState, elapsed_ms: u64) -> int {
    machine::global_time(s.boot_time_ms, elapsed_ms) as int / 1024
}

/// What an event does to the replay filter of a relay.
spec fn filter_events(
    s: RelayState,
    elapsed_ms: u64,
    event: EventState,
) -> Seq<sequence::FilterEvent> {
    match event {
        EventState::TransportPacketReceived { bytes, .. } => match packet::decode_packet(
            s.envelope_key,
            bytes,
        ) {
            Err(_) => Seq::empty(),
            Ok(e) => {
                let checked = sequence::FilterEvent::Checked {
                    time: ticks(s, elapsed_ms),
                    packet_time: e.time,
                    seq_id: e.seq_id,
                    seq_no: e.seq_no,
                };
                if admitted(s, elapsed_ms, e).1 {
                    seq![
                        checked,
                        sequence::FilterEvent::Evicted { time: ticks(s, elapsed_ms), cap: 0 },
                    ]
                } else {
                    seq![checked]
                }
            },
        },
        _ => Seq::empty(),
    }
}

spec fn filter_row(
    s: RelayState,
    events: Seq<(u64, EventState)>,
) -> Seq<sequence::FilterEvent>
    decreases events.len(),
{
    if events.len() == 0 {
        Seq::empty()
    } else {
        let (elapsed_ms, event) = events.last();
        filter_row(s, events.drop_last()) + filter_events(
            relay_history(s, events.drop_last()),
            elapsed_ms,
            event,
        )
    }
}

/// The filter of a relay after an event.
proof fn lemma_step_filter(s: RelayState, elapsed_ms: u64, event: EventState)
    ensures
        ({
            let t = relay_step(s, elapsed_ms, event).0;
            &&& t.filter == sequence::filter_history(s.filter, filter_events(s, elapsed_ms, event))
            &&& t.boot_time_ms == s.boot_time_ms
            &&& t.envelope_key == s.envelope_key
        }),
{
    let row = filter_events(s, elapsed_ms, event);
    reveal_with_fuel(sequence::filter_history, 3);
    if row.len() == 1 {
        assert(row.drop_last() =~= Seq::empty());
    } else if row.len() == 2 {
        assert(row.drop_last() =~= seq![row[0]]);
        assert(row.drop_last().drop_last() =~= Seq::empty());
    }
}

proof fn lemma_row_filter(s: RelayState, events: Seq<(u64, EventState)>)
    ensures
        ({
            let t = relay_history(s, events);
            &&& t.filter == sequence::filter_history(s.filter, filter_row(s, events))
            &&& t.boot_time_ms == s.boot_time_ms
            &&& t.envelope_key == s.envelope_key
        }),
    decreases events.len(),
{
    if events.len() > 0 {
        let (elapsed_ms, event) = events.last();
        let before = relay_history(s, events.drop_last());
        lemma_row_filter(s, events.drop_last());
        lemma_step_filter(before, elapsed_ms, event);
        sequence::lemma_filter_append(
            s.filter,
            filter_row(s, events.drop_last()),
            filter_events(before, elapsed_ms, event),
        );
    }
}

proof fn lemma_ticks_grow(s: RelayState, a: u64, b: u64)
    requires
        a <= b,
    ensures
        ticks(s, a) <= ticks(s, b),
{
}

proof fn lemma_step_time(s: RelayState, elapsed_ms: u64, event: EventState, end: u64)
    requires
        elapsed_ms <= end,
    ensures
        sequence::in_time(
            ticks(s, elapsed_ms),
            filter_events(s, elapsed_ms, event),
            ticks(s, end),
        ),
{
    let row = filter_events(s, elapsed_ms, event);
    reveal_with_fuel(sequence::in_time, 3);
    lemma_ticks_grow(s, elapsed_ms, end);
    if row.len() == 1 {
        assert(row.drop_last() =~= Seq::empty());
    } else if row.len() == 2 {
        assert(row.drop_last() =~= seq![row[0]]);
        assert(row.drop_last().drop_last() =~= Seq::empty());
    }
}

proof fn lemma_row_time(s: RelayState, start: u64, events: Seq<(u64, EventState)>, end: u64)
    requires
        in_order(start, events, end),
    ensures
        start <= end,
        sequence::in_time(ticks(s, start), filter_row(s, events), ticks(s, end)),
    decreases events.len(),
{
    lemma_ticks_grow(s, start, if start <= end {
        end
    } else {
        start
    });
    if events.len() > 0 {
        let (elapsed_ms, event) = events.last();
        let before = relay_history(s, events.drop_last());
        lemma_row_time(s, start, events.drop_last(), elapsed_ms);
        lemma_row_filter(s, events.drop_last());
        lemma_step_time(before, elapsed_ms, event, end);
        sequence::lemma_time_append(
            ticks(s, start),
            filter_row(s, events.drop_last()),
            filter_events(before, elapsed_ms, event),
            ticks(s, elapsed_ms),
            ticks(s, end),
        );
    }
}

/// A relay sends no packet on twice in its life, whatever events come before and in between
/// and whatever windows it gives up. A copy counts as the same packet where it opens to the
/// same tick, sender and number, whatever its cipher text, route plan and padding. The life of
/// a relay is a good year: half the circle of ticks, but for those that a packet may be early
/// and late.
pub proof fn law_relay_never_forwards_again(
    config: RelayConfig,
    earlier: Seq<(u64, EventState)>,
    start: u64,
    channel_id: u16,
    bytes: Seq<u8>,
    events: Seq<(u64, EventState)>,
    end: u64,
    other_channel: u16,
    copy: Seq<u8>,
)
    requires
        in_order(0, earlier, start),
        in_order(start, events, end),
        machine::global_time(config.boot_time_ms, end) as int / 1024 - config.boot_time_ms as int
            / 1024 < 0x200_0000 - sequence::MAX_PAST_TICKS - sequence::MAX_FUTURE_TICKS,
        ({
            let s = relay_history(relay_init(config), earlier);
            let received = EventState::TransportPacketReceived { channel_id, bytes };
            relay_step(s, start, received).1.len() > 0
        }),
        packet::decode_packet(config.envelope_key@, copy) is Ok,
        wire::stamp_of(packet::decode_packet(config.envelope_key@, copy)->Ok_0)
            == wire::stamp_of(packet::decode_packet(config.envelope_key@, bytes)->Ok_0),
    ensures
        ({
            let s = relay_history(relay_init(config), earlier);
            let received = EventState::TransportPacketReceived { channel_id, bytes };
            let later = relay_history(relay_step(s, start, received).0, events);
            let again = EventState::TransportPacketReceived {
                channel_id: other_channel,
                bytes: copy,
            };
            relay_step(later, end, again).1.len() == 0
        }),
{
    let init = relay_init(config);
    let s = relay_history(init, earlier);
    let received = EventState::TransportPacketReceived { channel_id, bytes };
    let after = relay_step(s, start, received).0;
    let later = relay_history(after, events);
    let e = packet::decode_packet(config.envelope_key@, bytes)->Ok_0;
    lemma_row_filter(init, earlier);
    lemma_row_time(init, 0, earlier, start);
    lemma_step_filter(s, start, received);
    lemma_row_filter(after, events);
    lemma_row_time(after, start, events, end);
    lemma_ticks_grow(init, start, end);
    let evicted = sequence::FilterEvent::Evicted { time: ticks(init, start), cap: 0 };
    let row = filter_row(after, events);
    let first = seq![evicted];
    reveal_with_fuel(sequence::in_time, 2);
    reveal_with_fuel(sequence::filter_history, 2);
    assert(first.drop_last() =~= Seq::empty());
    sequence::lemma_time_append(ticks(init, start), first, row, ticks(init, start), ticks(init, end));
    let m = s.filter;
    let taken = sequence::check(m, sequence::tick(ticks(init, start)), e.time, e.seq_id, e.seq_no);
    sequence::lemma_filter_append(taken.0, first, row);
    assert(after.filter == sequence::filter_history(taken.0, first));
    sequence::law_taken_once(
        ticks(init, 0),
        filter_row(init, earlier),
        ticks(init, start),
        e.time,
        e.seq_id,
        e.seq_no,
        first + row,
        ticks(init, end),
    );
}

/// A relay sends at most one packet per packet received, on one of its own channels.
pub proof fn law_relay_sends_on_own_channels(s: RelayState, elapsed_ms: u64, bytes: Seq<u8>)
    ensures
        ({
            let actions = forwarded(s, elapsed_ms, bytes).1;
            &&& actions.len() <= 1
            &&& actions.len() == 1 ==> (actions[0] matches machine::ActionState::SendTransportPacket {
                channel_id,
                ..
            } && s.local_channels.contains(channel_id))
        }),
{
}

/// A packet that does not open changes nothing but the metrics.
pub proof fn law_unauthentic_packet_leaves_no_trace(
    s: RelayState,
    elapsed_ms: u64,
    bytes: Seq<u8>,
)
    requires
        packet::decode_packet(s.envelope_key, bytes) is Err,
    ensures
        forwarded(s, elapsed_ms, bytes).1.len() == 0,
        forwarded(s, elapsed_ms, bytes).0 == (RelayState {
            metrics: forwarded(s, elapsed_ms, bytes).0.metrics,
            ..s
        }),
{
}

/// A packet that opens, is fresh and new, and whose route goes on over a channel of the relay
/// that has room for it, is sent on: in one packet on that channel, which opens to the same
/// envelope without the channel. It is counted as sent. Where the route does not go on so,
/// the packet is dropped and counted.
pub proof fn law_relay_forwards(
    s: RelayState,
    elapsed_ms: u64,
    channel_id: u16,
    bytes: Seq<u8>,
)
    requires
        crate::endpoint::promises::cipher_opens(),
        s.envelope_key.len() == 16,
        packet::decode_packet(s.envelope_key, bytes) is Ok,
        ({
            let e = packet::decode_packet(s.envelope_key, bytes)->Ok_0;
            sequence::check(
                s.filter,
                machine::tick_at(s.boot_time_ms, elapsed_ms),
                e.time,
                e.seq_id,
                e.seq_no,
            ).1 is Ok
        }),
    ensures
        ({
            let e = packet::decode_packet(s.envelope_key, bytes)->Ok_0;
            let (t, actions) = relay_step(
                s,
                elapsed_ms,
                EventState::TransportPacketReceived { channel_id, bytes },
            );
            let unit = if s.local_min_mtu <= 65536 {
                s.local_min_mtu as int
            } else {
                65536
            };
            let on = e.route_plan.len() > 0 && s.local_channels.contains(e.route_plan[0])
                && e.payload.len() + 2 * (e.route_plan.len() - 1) + 49 <= unit;
            &&& on ==> {
                &&& actions.len() == 1
                &&& consumes_one_hop(s.envelope_key, bytes, actions[0])
                &&& actions[0] matches machine::ActionState::SendTransportPacket { bytes, .. }
                    && bytes.len() <= unit
                &&& t.metrics.packets_sent == machine::bumped(s.metrics.packets_sent)
                &&& t.metrics.packets_dropped == s.metrics.packets_dropped
            }
            &&& !on ==> {
                &&& actions.len() == 0
                &&& t.metrics.packets_sent == s.metrics.packets_sent
                &&& t.metrics.packets_dropped == machine::bumped(s.metrics.packets_dropped)
            }
            &&& t.metrics.packets_received == machine::bumped(s.metrics.packets_received)
            &&& t == (RelayState {
                random: t.random,
                filter: t.filter,
                metrics: t.metrics,
                ..s
            })
        }),
{
    let e = packet::decode_packet(s.envelope_key, bytes)->Ok_0;
    packet::lemma_opened_fits(s.envelope_key, bytes);
    let counted = RelayState {
        metrics: CoreMetrics {
            packets_received: machine::bumped(s.metrics.packets_received),
            ..s.metrics
        },
        ..s
    };
    let checked = admitted(counted, elapsed_ms, e).0;
    if forwardable(checked, e) {
        let next = next_envelope(checked, e);
        let room = limits::transport_mtu(s.local_min_mtu) - unpadded_len(e);
        crate::endpoint::promises::lemma_padding(checked.random, room);
        let padded = random::skip_bytes(checked.random, 8);
        crate::endpoint::promises::lemma_packet_opens(s.envelope_key, padded, next);
    }
}

/// A relay counts what comes in, what it drops for each reason, and what its channels refuse.
pub proof fn law_relay_counts(s: RelayState, elapsed_ms: u64, channel_id: u16, bytes: Seq<u8>)
    ensures
        ({
            let t = relay_step(
                s,
                elapsed_ms,
                EventState::TransportPacketReceived { channel_id, bytes },
            ).0.metrics;
            let counted = CoreMetrics {
                packets_received: machine::bumped(s.metrics.packets_received),
                ..s.metrics
            };
            match packet::decode_packet(s.envelope_key, bytes) {
                Err(packet::TransportPacketError::InvalidLength) => t == (CoreMetrics {
                    packets_dropped: machine::bumped(counted.packets_dropped),
                    ..counted
                }),
                Err(packet::TransportPacketError::Authentication) => t == (CoreMetrics {
                    authentication_failures: machine::bumped(counted.authentication_failures),
                    ..counted
                }),
                Err(packet::TransportPacketError::MalformedEnvelope) => t == (CoreMetrics {
                    malformed_packets: machine::bumped(counted.malformed_packets),
                    ..counted
                }),
                Ok(e) => match sequence::check(
                    s.filter,
                    machine::tick_at(s.boot_time_ms, elapsed_ms),
                    e.time,
                    e.seq_id,
                    e.seq_no,
                ).1 {
                    Err(sequence::SequenceDrop::Freshness) => t == (CoreMetrics {
                        freshness_drops: machine::bumped(counted.freshness_drops),
                        ..counted
                    }),
                    Err(sequence::SequenceDrop::Replay) => t == (CoreMetrics {
                        replay_drops: machine::bumped(counted.replay_drops),
                        ..counted
                    }),
                    Ok(_) => true,
                },
            }
        }),
        ({
            let (t, actions) = relay_step(
                s,
                elapsed_ms,
                EventState::TransportPacketSendFailed { channel_id, bytes },
            );
            &&& actions.len() == 0
            &&& t == (RelayState {
                metrics: CoreMetrics {
                    send_failures: machine::bumped(s.metrics.send_failures),
                    ..s.metrics
                },
                ..s
            })
        }),
{
}

/// A counter goes up by one, and stays where it is full.
pub proof fn law_counters_count(counter: u64)
    ensures
        counter < 0xffff_ffff_ffff_ffff ==> machine::bumped(counter) == counter + 1,
        counter == 0xffff_ffff_ffff_ffff ==> machine::bumped(counter) == counter,
{
}

} // verus!
