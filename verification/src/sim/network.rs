//! Packets on their way, in virtual time.
use std::collections::BTreeMap;
use vstd::prelude::*;

use crate::machine::ChannelId;
use crate::octets;
use crate::sim::link;
use crate::sim::link::{SimLink, SimNodeId};

verus! {

broadcast use {vstd::std_specs::btree::group_btree_axioms, vstd::laws_cmp::group_laws_cmp};

#[derive(Debug, Clone, Copy, PartialEq, Eq, Structural)]
pub struct TestMetrics {
    pub sent_packets: u64,
    pub delivered_packets: u64,
    pub dropped_packets: u64,
    pub delivered_local_bytes: u64,
    pub last_delivery_ms: u64,
}

/// A packet on its way.
#[derive(Debug, Clone, PartialEq, Eq)]
pub struct ScheduledPacket {
    pub due_ms: u64,
    pub from_node: SimNodeId,
    pub from_channel_id: ChannelId,
    pub to_node: SimNodeId,
    pub to_channel_id: ChannelId,
    pub bytes: Vec<u8>,
}

#[verifier::ext_equal]
pub struct PacketState {
    pub due_ms: u64,
    pub from_node: SimNodeId,
    pub from_channel_id: ChannelId,
    pub to_node: SimNodeId,
    pub to_channel_id: ChannelId,
    pub bytes: Seq<u8>,
}

impl View for ScheduledPacket {
    type V = PacketState;

    open spec fn view(&self) -> PacketState {
        PacketState {
            due_ms: self.due_ms,
            from_node: self.from_node,
            from_channel_id: self.from_channel_id,
            to_node: self.to_node,
            to_channel_id: self.to_channel_id,
            bytes: self.bytes@,
        }
    }
}

impl ScheduledPacket {
    fn copy_due(&self, due_ms: u64) -> (copy: ScheduledPacket)
        ensures
            copy@ == (PacketState { due_ms, ..self@ }),
    {
        let bytes: Vec<u8> = octets::copy_range(self.bytes.as_slice(), 0, self.bytes.len());
        assert(bytes@ =~= self.bytes@);
        ScheduledPacket {
            due_ms,
            from_node: self.from_node,
            from_channel_id: self.from_channel_id,
            to_node: self.to_node,
            to_channel_id: self.to_channel_id,
            bytes,
        }
    }
}

/// The state of a network.
#[verifier::ext_equal]
pub struct NetworkState {
    pub now_ms: u64,
    pub links: Seq<SimLink>,
    pub attempts: Seq<u64>,
    pub packets: Seq<PacketState>,
    pub captured: Map<(u64, u64), PacketState>,
    pub next_tx: Map<(u64, u64), u64>,
    pub delivered: Map<(u64, u64), u64>,
    pub metrics: TestMetrics,
}

/// A network without links, at the beginning of time.
pub open spec fn quiet() -> NetworkState {
    NetworkState {
        now_ms: 0,
        links: Seq::empty(),
        attempts: Seq::empty(),
        packets: Seq::empty(),
        captured: Map::empty(),
        next_tx: Map::empty(),
        delivered: Map::empty(),
        metrics: TestMetrics {
            sent_packets: 0,
            delivered_packets: 0,
            dropped_packets: 0,
            delivered_local_bytes: 0,
            last_delivery_ms: 0,
        },
    }
}

pub open spec fn key(node: SimNodeId, channel: ChannelId) -> (u64, u64) {
    (node, channel as u64)
}

pub open spec fn more(count: u64, by: int) -> u64 {
    link::capped(count + by)
}

/// The first link out of a channel of a node.
pub open spec fn link_from(
    links: Seq<SimLink>,
    node: SimNodeId,
    channel: ChannelId,
) -> Option<int>
    decreases links.len(),
{
    if links.len() == 0 {
        None
    } else if links[0].from_node == node && links[0].from_channel_id == channel {
        Some(0)
    } else {
        match link_from(links.drop_first(), node, channel) {
            Some(i) => Some(i + 1),
            None => None,
        }
    }
}

/// What becomes of a packet that a node sends.
#[derive(Debug, Clone, PartialEq, Eq)]
pub enum SendOutcome {
    /// It is on its way.
    Queued,
    /// It is lost on the way.
    Lost,
    /// It could not be sent: there is no link, or it is down.
    Failed { bytes: Vec<u8> },
}

/// The network after a packet has been sent, and whether the sending failed.
pub open spec fn sent(
    s: NetworkState,
    node: SimNodeId,
    channel: ChannelId,
    bytes: Seq<u8>,
) -> (NetworkState, Option<bool>) {
    let counted = TestMetrics { sent_packets: more(s.metrics.sent_packets, 1), ..s.metrics };
    let dropped = TestMetrics {
        dropped_packets: more(s.metrics.dropped_packets, 1),
        ..counted
    };
    match link_from(s.links, node, channel) {
        None => (NetworkState { metrics: dropped, ..s }, None),
        Some(i) => {
            let link = s.links[i];
            let attempts = s.attempts.update(i, more(s.attempts[i], 1));
            if link::down_at(link.down_windows@, s.now_ms) {
                (NetworkState { metrics: dropped, attempts, ..s }, None)
            } else if link::lost(link.loss, attempts[i]) {
                (NetworkState { metrics: dropped, attempts, ..s }, Some(false))
            } else {
                let k = key(node, channel);
                let next = if s.next_tx.contains_key(k) && s.next_tx[k] > s.now_ms {
                    s.next_tx[k]
                } else {
                    s.now_ms
                };
                let packet = PacketState {
                    due_ms: link.due_at(next, bytes.len()),
                    from_node: node,
                    from_channel_id: channel,
                    to_node: link.to_node,
                    to_channel_id: link.to_channel_id,
                    bytes,
                };
                (
                    NetworkState {
                        metrics: counted,
                        attempts,
                        next_tx: s.next_tx.insert(k, link.sent_at(next, bytes.len())),
                        captured: s.captured.insert(k, packet),
                        packets: s.packets.push(packet),
                        ..s
                    },
                    Some(true),
                )
            }
        },
    }
}

/// The network after bytes have reached their session at the far end.
pub open spec fn arrived(s: NetworkState, len: nat) -> NetworkState {
    NetworkState {
        metrics: TestMetrics {
            delivered_local_bytes: more(s.metrics.delivered_local_bytes, len as int),
            last_delivery_ms: s.now_ms,
            ..s.metrics
        },
        ..s
    }
}

/// The packet at `i` is the first of those that arrive next.
pub open spec fn next_packet(packets: Seq<PacketState>, i: int) -> bool {
    &&& 0 <= i < packets.len()
    &&& forall|j: int| 0 <= j < packets.len() ==> packets[i].due_ms <= #[trigger] packets[j].due_ms
    &&& forall|j: int| 0 <= j < i ==> packets[i].due_ms < #[trigger] packets[j].due_ms
}

/// The network after the packet at `i` has arrived.
pub open spec fn delivered(s: NetworkState, i: int) -> NetworkState {
    let packet = s.packets[i];
    let k = key(packet.from_node, packet.from_channel_id);
    NetworkState {
        now_ms: packet.due_ms,
        packets: s.packets.remove(i),
        delivered: s.delivered.insert(
            k,
            if s.delivered.contains_key(k) {
                more(s.delivered[k], 1)
            } else {
                1
            },
        ),
        metrics: TestMetrics {
            delivered_packets: more(s.metrics.delivered_packets, 1),
            ..s.metrics
        },
        ..s
    }
}

/// The packets without those of one channel.
pub open spec fn without_channel(
    packets: Seq<PacketState>,
    node: SimNodeId,
    channel: ChannelId,
) -> Seq<PacketState>
    decreases packets.len(),
{
    if packets.len() == 0 {
        Seq::empty()
    } else {
        let rest = without_channel(packets.drop_last(), node, channel);
        if packets.last().from_node == node && packets.last().from_channel_id == channel {
            rest
        } else {
            rest.push(packets.last())
        }
    }
}

/// What happens next.
#[derive(Debug, Clone, PartialEq, Eq)]
pub enum SimStep {
    /// Nothing.
    Idle,
    /// A node is polled.
    Poll { node: SimNodeId },
    /// A packet arrives.
    Deliver { packet: ScheduledPacket },
}

/// The time at which a node is polled: its deadline, or the next millisecond where that has
/// passed.
pub open spec fn poll_time(now_ms: u64, due_ms: u64) -> u64 {
    if due_ms <= now_ms {
        more(now_ms, 1)
    } else {
        due_ms
    }
}

/// Links, the packets on them, and the virtual time.
pub struct Network {
    now_ms: u64,
    links: Vec<SimLink>,
    link_attempts: Vec<u64>,
    packets: Vec<ScheduledPacket>,
    captured_packets: BTreeMap<(u64, u64), ScheduledPacket>,
    link_next_tx: BTreeMap<(u64, u64), u64>,
    delivered_by_outbound_channel: BTreeMap<(u64, u64), u64>,
    metrics: TestMetrics,
}

pub open spec fn packet_states(packets: Seq<ScheduledPacket>) -> Seq<PacketState> {
    packets.map_values(|p: ScheduledPacket| p@)
}

impl View for Network {
    type V = NetworkState;

    closed spec fn view(&self) -> NetworkState {
        NetworkState {
            now_ms: self.now_ms,
            links: self.links@,
            attempts: self.link_attempts@,
            packets: packet_states(self.packets@),
            captured: self.captured_packets@.map_values(|p: ScheduledPacket| p@),
            next_tx: self.link_next_tx@,
            delivered: self.delivered_by_outbound_channel@,
            metrics: self.metrics,
        }
    }
}

impl Network {
    /// Each link has a count of attempts, and sane chances.
    pub open spec fn wf(&self) -> bool {
        &&& self@.attempts.len() == self@.links.len()
        &&& forall|i: int|
            0 <= i < self@.links.len() ==> link::loss_ok((#[trigger] self@.links[i]).loss)
    }

    pub fn new() -> (network: Network)
        ensures
            network.wf(),
            network@ == quiet(),
    {
        let network = Network {
            now_ms: 0,
            links: Vec::new(),
            link_attempts: Vec::new(),
            packets: Vec::new(),
            captured_packets: BTreeMap::new(),
            link_next_tx: BTreeMap::new(),
            delivered_by_outbound_channel: BTreeMap::new(),
            metrics: TestMetrics {
                sent_packets: 0,
                delivered_packets: 0,
                dropped_packets: 0,
                delivered_local_bytes: 0,
                last_delivery_ms: 0,
            },
        };
        assert(network@.packets =~= Seq::<PacketState>::empty());
        assert(network@.captured =~= Map::<(u64, u64), PacketState>::empty());
        network
    }

    pub fn now_ms(&self) -> (now: u64)
        ensures
            now == self@.now_ms,
    {
        self.now_ms
    }

    /// Lets the virtual time pass.
    pub fn advance_to(&mut self, now_ms: u64)
        requires
            old(self).wf(),
        ensures
            final(self).wf(),
            final(self)@ == (NetworkState { now_ms, ..old(self)@ }),
    {
        self.now_ms = now_ms;
    }

    pub fn metrics(&self) -> (metrics: TestMetrics)
        ensures
            metrics == self@.metrics,
    {
        self.metrics
    }

    pub fn add_link(&mut self, added: SimLink)
        requires
            old(self).wf(),
            link::loss_ok(added.loss),
        ensures
            final(self).wf(),
            final(self)@ == (NetworkState {
                links: old(self)@.links.push(added),
                attempts: old(self)@.attempts.push(0),
                ..old(self)@
            }),
    {
        self.links.push(added);
        self.link_attempts.push(0);
    }

    fn find_link(&self, node: SimNodeId, channel: ChannelId) -> (found: Option<usize>)
        ensures
            match found {
                Some(i) => i < self@.links.len() && link_from(self@.links, node, channel) == Some(
                    i as int,
                ),
                None => link_from(self@.links, node, channel) is None,
            },
    {
        let ghost links = self.links@;
        let mut i: usize = 0;
        assert(links.skip(0) =~= links);
        while i < self.links.len()
            invariant
                links == self.links@,
                i <= links.len(),
                link_from(links, node, channel) == match link_from(
                    links.skip(i as int),
                    node,
                    channel,
                ) {
                    Some(j) => Some(i + j),
                    None => None::<int>,
                },
            decreases links.len() - i,
        {
            let ghost rest = links.skip(i as int);
            assert(rest[0] == links[i as int]);
            if self.links[i].from_node == node && self.links[i].from_channel_id == channel {
                return Some(i);
            }
            assert(rest.drop_first() =~= links.skip(i + 1));
            i = i + 1;
        }
        None
    }

    /// A node sends a packet on a channel. It is queued behind the packets that are still
    /// being sent, or lost, or it cannot be sent.
    pub fn send(&mut self, node: SimNodeId, channel: ChannelId, bytes: Vec<u8>) -> (outcome:
        SendOutcome)
        requires
            old(self).wf(),
        ensures
            final(self).wf(),
            final(self)@ == sent(old(self)@, node, channel, bytes@).0,
            match sent(old(self)@, node, channel, bytes@).1 {
                None => outcome == (SendOutcome::Failed { bytes }),
                Some(queued) => outcome == if queued {
                    SendOutcome::Queued
                } else {
                    SendOutcome::Lost
                },
            },
    {
        self.metrics.sent_packets = self.metrics.sent_packets.saturating_add(1);
        let index: usize = match self.find_link(node, channel) {
            Some(index) => index,
            None => {
                self.metrics.dropped_packets = self.metrics.dropped_packets.saturating_add(1);
                return SendOutcome::Failed { bytes };
            },
        };
        let attempt: u64 = self.link_attempts[index].saturating_add(1);
        self.link_attempts.set(index, attempt);
        assert(link::loss_ok(self@.links[index as int].loss));
        if self.links[index].is_down(self.now_ms) {
            self.metrics.dropped_packets = self.metrics.dropped_packets.saturating_add(1);
            return SendOutcome::Failed { bytes };
        }
        if self.links[index].should_drop(attempt) {
            self.metrics.dropped_packets = self.metrics.dropped_packets.saturating_add(1);
            return SendOutcome::Lost;
        }
        let k: (u64, u64) = (node, channel as u64);
        let starts_at: u64 = match self.link_next_tx.get(&k) {
            Some(next) => if *next > self.now_ms {
                *next
            } else {
                self.now_ms
            },
            None => self.now_ms,
        };
        let (sent_ms, due_ms) = self.links[index].schedule(starts_at, bytes.len());
        self.link_next_tx.insert(k, sent_ms);
        let packet = ScheduledPacket {
            due_ms,
            from_node: node,
            from_channel_id: channel,
            to_node: self.links[index].to_node,
            to_channel_id: self.links[index].to_channel_id,
            bytes,
        };
        let ghost captured = self@.captured;
        let ghost packets = self@.packets;
        self.captured_packets.insert(k, packet.copy_due(due_ms));
        self.packets.push(packet);
        assert(self@.captured =~= captured.insert(k, packet@));
        assert(self@.packets =~= packets.push(packet@));
        SendOutcome::Queued
    }

    fn next_packet_index(&self) -> (index: Option<usize>)
        ensures
            match index {
                Some(i) => next_packet(self@.packets, i as int),
                None => self@.packets.len() == 0,
            },
    {
        if self.packets.len() == 0 {
            return None;
        }
        let ghost packets = self@.packets;
        let mut best: usize = 0;
        let mut i: usize = 1;
        while i < self.packets.len()
            invariant
                packets == packet_states(self.packets@),
                0 < i <= self.packets@.len(),
                best < i,
                forall|j: int|
                    0 <= j < i ==> packets[best as int].due_ms <= #[trigger] packets[j].due_ms,
                forall|j: int|
                    0 <= j < best ==> packets[best as int].due_ms < #[trigger] packets[j].due_ms,
            decreases self.packets@.len() - i,
        {
            assert(packets[i as int] == self.packets@[i as int]@);
            assert(packets[best as int] == self.packets@[best as int]@);
            if self.packets[i].due_ms < self.packets[best].due_ms {
                best = i;
            }
            i = i + 1;
        }
        Some(best)
    }

    /// What happens next: a packet arrives, or a node is polled whose deadline, given with
    /// it, comes before the next packet. The virtual time passes.
    pub fn next_step(&mut self, poll: Option<(SimNodeId, u64)>) -> (step: SimStep)
        requires
            old(self).wf(),
        ensures
            final(self).wf(),
            match step {
                SimStep::Idle => {
                    &&& poll is None
                    &&& old(self)@.packets.len() == 0
                    &&& final(self)@ == old(self)@
                },
                SimStep::Poll { node } => {
                    &&& poll matches Some((first, due_ms))
                    &&& node == first
                    &&& forall|i: int| #[trigger]
                        next_packet(old(self)@.packets, i) ==> due_ms
                            < old(self)@.packets[i].due_ms
                    &&& final(self)@ == (NetworkState {
                        now_ms: poll_time(old(self)@.now_ms, due_ms),
                        ..old(self)@
                    })
                },
                SimStep::Deliver { packet } => exists|i: int|
                    {
                        &&& #[trigger] next_packet(old(self)@.packets, i)
                        &&& packet@ == old(self)@.packets[i]
                        &&& poll matches Some((first, due_ms)) ==> packet.due_ms <= due_ms
                        &&& final(self)@ == delivered(old(self)@, i)
                    },
            },
    {
        match (self.next_packet_index(), poll) {
            (None, None) => SimStep::Idle,
            (None, Some((node, due_ms))) => {
                self.wait_for(due_ms);
                SimStep::Poll { node }
            },
            (Some(index), poll) => {
                let due: u64 = self.packets[index].due_ms;
                assert(self@.packets[index as int] == self.packets@[index as int]@);
                if let Some((node, due_ms)) = poll {
                    if due_ms < due {
                        proof {
                            assert forall|i: int| #[trigger]
                                next_packet(self@.packets, i) implies due_ms
                                < self@.packets[i].due_ms by {
                                assert(self@.packets[index as int].due_ms
                                    <= self@.packets[i].due_ms);
                            }
                        }
                        self.wait_for(due_ms);
                        return SimStep::Poll { node };
                    }
                }
                let ghost packets = self@.packets;
                let packet: ScheduledPacket = self.packets.remove(index);
                assert(self@.packets =~= packets.remove(index as int));
                self.now_ms = packet.due_ms;
                self.metrics.delivered_packets = self.metrics.delivered_packets.saturating_add(1);
                let k: (u64, u64) = (packet.from_node, packet.from_channel_id as u64);
                let count: u64 = match self.delivered_by_outbound_channel.get(&k) {
                    Some(count) => count.saturating_add(1),
                    None => 1,
                };
                self.delivered_by_outbound_channel.insert(k, count);
                assert(next_packet(packets, index as int));
                SimStep::Deliver { packet }
            },
        }
    }

    fn wait_for(&mut self, due_ms: u64)
        ensures
            final(self)@ == (NetworkState {
                now_ms: poll_time(old(self)@.now_ms, due_ms),
                ..old(self)@
            }),
    {
        if due_ms <= self.now_ms {
            self.now_ms = self.now_ms.saturating_add(1);
        } else {
            self.now_ms = due_ms;
        }
    }

    /// Drops the packets that are on their way from a channel, and says how many.
    pub fn drop_queued_from(&mut self, node: SimNodeId, channel: ChannelId) -> (dropped: usize)
        requires
            old(self).wf(),
        ensures
            final(self).wf(),
            dropped == old(self)@.packets.len() - final(self)@.packets.len(),
            final(self)@ == (NetworkState {
                packets: without_channel(old(self)@.packets, node, channel),
                metrics: TestMetrics {
                    dropped_packets: more(old(self)@.metrics.dropped_packets, dropped as int),
                    ..old(self)@.metrics
                },
                ..old(self)@
            }),
    {
        let ghost packets = self@.packets;
        let before: usize = self.packets.len();
        let mut kept: Vec<ScheduledPacket> = Vec::new();
        let mut i: usize = 0;
        assert(packets.take(0) =~= Seq::<PacketState>::empty());
        while i < self.packets.len()
            invariant
                packets == packet_states(self.packets@),
                i <= self.packets@.len(),
                kept@.len() <= i,
                packet_states(kept@) == without_channel(packets.take(i as int), node, channel),
            decreases self.packets@.len() - i,
        {
            let ghost some = packets.take(i + 1);
            let ghost held = packet_states(kept@);
            assert(some.drop_last() =~= packets.take(i as int));
            assert(some.last() == self.packets@[i as int]@);
            let packet: &ScheduledPacket = &self.packets[i];
            if !(packet.from_node == node && packet.from_channel_id == channel) {
                let due_ms: u64 = packet.due_ms;
                kept.push(packet.copy_due(due_ms));
                assert(packet_states(kept@) =~= held.push(some.last()));
            }
            i = i + 1;
        }
        assert(packets.take(i as int) =~= packets);
        let dropped: usize = before - kept.len();
        self.packets = kept;
        assert(packet_states(self.packets@).len() == self.packets@.len());
        self.metrics.dropped_packets = self.metrics.dropped_packets.saturating_add(dropped as u64);
        dropped
    }

    /// Sends the last packet of a channel again, at once. Says whether there was one.
    pub fn replay_last_packet(&mut self, node: SimNodeId, channel: ChannelId) -> (replayed: bool)
        requires
            old(self).wf(),
        ensures
            final(self).wf(),
            replayed == old(self)@.captured.contains_key(key(node, channel)),
            final(self)@ == if replayed {
                NetworkState {
                    packets: old(self)@.packets.push(
                        PacketState {
                            due_ms: old(self)@.now_ms,
                            ..old(self)@.captured[key(node, channel)]
                        },
                    ),
                    ..old(self)@
                }
            } else {
                old(self)@
            },
    {
        let k: (u64, u64) = (node, channel as u64);
        match self.captured_packets.get(&k) {
            Some(packet) => {
                let again: ScheduledPacket = packet.copy_due(self.now_ms);
                let ghost packets = self@.packets;
                self.packets.push(again);
                assert(self@.packets =~= packets.push(again@));
                true
            },
            None => false,
        }
    }

    /// How many packets have arrived from a channel.
    pub fn delivered_on(&self, node: SimNodeId, channel: ChannelId) -> (count: u64)
        ensures
            count == if self@.delivered.contains_key(key(node, channel)) {
                self@.delivered[key(node, channel)]
            } else {
                0
            },
    {
        let k: (u64, u64) = (node, channel as u64);
        match self.delivered_by_outbound_channel.get(&k) {
            Some(count) => *count,
            None => 0,
        }
    }

    /// How often a node has tried to send on a channel.
    pub fn attempted_on(&self, node: SimNodeId, channel: ChannelId) -> (count: u64)
        requires
            self.wf(),
        ensures
            count == match link_from(self@.links, node, channel) {
                Some(i) => self@.attempts[i],
                None => 0,
            },
    {
        match self.find_link(node, channel) {
            Some(index) => self.link_attempts[index],
            None => 0,
        }
    }

    /// Bytes have reached their session at the far end.
    pub fn delivered_bytes(&mut self, len: usize)
        requires
            old(self).wf(),
        ensures
            final(self).wf(),
            final(self)@ == arrived(old(self)@, len as nat),
    {
        self.metrics.delivered_local_bytes = self.metrics.delivered_local_bytes.saturating_add(
            len as u64,
        );
        self.metrics.last_delivery_ms = self.now_ms;
    }
}

/// A packet is never on its way back in time: what is queued now arrives now or later.
pub proof fn law_packets_arrive_later(
    s: NetworkState,
    node: SimNodeId,
    channel: ChannelId,
    bytes: Seq<u8>,
)
    ensures
        sent(s, node, channel, bytes).1 == Some(true) ==> sent(s, node, channel, bytes).0.packets
            == s.packets.push(sent(s, node, channel, bytes).0.packets.last()) && sent(
            s,
            node,
            channel,
            bytes,
        ).0.packets.last().due_ms >= s.now_ms,
        sent(s, node, channel, bytes).1 != Some(true) ==> sent(s, node, channel, bytes).0.packets
            == s.packets,
{
    if let Some(i) = link_from(s.links, node, channel) {
        let k = key(node, channel);
        let next = if s.next_tx.contains_key(k) && s.next_tx[k] > s.now_ms {
            s.next_tx[k]
        } else {
            s.now_ms
        };
        link::law_packets_take_time(s.links[i], next, bytes.len());
    }
}

} // verus!
