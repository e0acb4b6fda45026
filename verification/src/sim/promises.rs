//! What the simulated network and the shell on it promise.
use vstd::prelude::*;

use crate::endpoint::model;
use crate::endpoint::model::Step;
use crate::machine::{ActionState, ChannelId, ConvId, CoreEventResult, EventState};
use crate::sim::link;
use crate::sim::link::{DownWindow, LossModel, SimLink, SimNodeId};
use crate::sim::network;
use crate::sim::network::{NetworkState, PacketState};
use crate::sim::node;
use crate::sim::node::SessionsState;
use crate::sim::run;
use crate::sim::run::{Place, Run};

verus! {

// ---------------------------------------------------------------------------
// Links
// ---------------------------------------------------------------------------

/// A packet keeps its link for the least number of milliseconds in which the bandwidth lets
/// all of its bytes through, or for none where there is no limit. After that it is under way
/// for the latency and the extra delay of the link.
pub proof fn law_packet_times(link: SimLink, starts_at: u64, len: nat)
    requires
        starts_at + len + link.latency_ms + link.extra_delay_ms <= u64::MAX,
    ensures
        ({
            let b = link.bandwidth_bytes_per_ms as int;
            let taken = link.sent_at(starts_at, len) - starts_at;
            &&& b == 0 ==> taken == 0
            &&& b > 0 ==> (taken - 1) * b < len <= taken * b
            &&& link.due_at(starts_at, len) == link.sent_at(starts_at, len) + link.latency_ms
                + link.extra_delay_ms
        }),
{
    let b = link.bandwidth_bytes_per_ms as int;
    if b > 0 {
        let n = len as int;
        let q = (n + b - 1) / b;
        vstd::arithmetic::div_mod::lemma_fundamental_div_mod(n + b - 1, b);
        vstd::arithmetic::div_mod::lemma_mod_bound(n + b - 1, b);
        assert(0 <= q <= n && (q - 1) * b < n <= q * b) by (nonlinear_arith)
            requires
                b >= 1,
                n >= 0,
                n + b - 1 == b * q + (n + b - 1) % b,
                0 <= (n + b - 1) % b < b,
        ;
    }
}

/// Times do not go beyond the last one.
pub proof fn law_times_end(link: SimLink, starts_at: u64, len: nat)
    requires
        starts_at + link.latency_ms + link.extra_delay_ms > u64::MAX,
    ensures
        link.due_at(starts_at, len) == u64::MAX,
{
    link::law_packets_take_time(link, starts_at, len);
}

/// A link is down from the start of a window up to its end, and no longer.
pub proof fn law_link_is_down(windows: Seq<DownWindow>, window: DownWindow, now_ms: u64)
    ensures
        !link::down_at(Seq::empty(), now_ms),
        link::down_at(windows.push(window), now_ms) <==> link::down_at(windows, now_ms)
            || window.start_ms <= now_ms < window.end_ms,
{
    let more = windows.push(window);
    if link::down_at(windows, now_ms) {
        let i = choose|i: int|
            0 <= i < windows.len() && (#[trigger] windows[i]).start_ms <= now_ms
                < windows[i].end_ms;
        assert(more[i] == windows[i]);
    }
    if window.start_ms <= now_ms < window.end_ms {
        assert(more[windows.len() as int] == window);
    }
    if link::down_at(more, now_ms) {
        let i = choose|i: int|
            0 <= i < more.len() && (#[trigger] more[i]).start_ms <= now_ms < more[i].end_ms;
        if i < windows.len() {
            assert(windows[i] == more[i]);
        }
    }
}

/// A link without loss loses nothing, and one that loses every `packets`th packet loses those
/// whose number is a multiple.
pub proof fn law_lost_packets(packets: u64, k: nat, r: nat, number: u64)
    requires
        number == k * packets + r,
        r < packets,
    ensures
        !link::lost(LossModel::Lossless, number),
        link::lost(LossModel::Every { packets }, number) <==> r == 0,
        link::lost(LossModel::Every { packets: 0 }, number) <==> number == 0,
{
    let n = packets as int;
    assert(k * packets + r == k * n + r);
    vstd::arithmetic::div_mod::lemma_fundamental_div_mod_converse(
        number as int,
        n,
        k as int,
        r as int,
    );
}

/// A chance of so many in a million loses the packets whose random number is below that part
/// of all numbers.
pub proof fn law_lost_by_chance(loss_ppm: u32, seed: u64, number: u64)
    ensures
        link::lost(LossModel::Bernoulli { loss_ppm, seed }, number) <==> link::mixed(
            ((seed + number) % 0x1_0000_0000_0000_0000) as u64,
        ) * 1_000_000 < loss_ppm * 0x1_0000_0000_0000_0000,
{
    assert(seed.wrapping_add(number) == ((seed + number) % 0x1_0000_0000_0000_0000) as u64);
    let scaled = link::mixed(seed.wrapping_add(number)) * 1_000_000;
    assert(scaled / 0x1_0000_0000_0000_0000 < loss_ppm <==> scaled < loss_ppm
        * 0x1_0000_0000_0000_0000);
}

/// The random number is made in four steps: a sum, two products and a last shift, the sum and
/// the products without what does not fit.
pub proof fn law_mixed_number(value: u64, a: u64, b: u64, c: u64)
    requires
        a == (value + 0x9e3779b97f4a7c15) % 0x1_0000_0000_0000_0000,
        b == ((a ^ (a >> 30)) * 0xbf58476d1ce4e5b9) % 0x1_0000_0000_0000_0000,
        c == ((b ^ (b >> 27)) * 0x94d049bb133111eb) % 0x1_0000_0000_0000_0000,
    ensures
        link::mixed(value) == c ^ (c >> 31),
{
}

// ---------------------------------------------------------------------------
// Packets
// ---------------------------------------------------------------------------

/// A count has gone up, and stays at the greatest one.
pub open spec fn counted(before: u64, after: u64, by: nat) -> bool {
    if before + by <= u64::MAX {
        after == before + by
    } else {
        after == u64::MAX
    }
}

/// The link starts at this channel.
pub open spec fn starts_at(link: SimLink, node: SimNodeId, channel: ChannelId) -> bool {
    link.from_node == node && link.from_channel_id == channel
}

/// The link at `i` is the first that starts at this channel.
pub open spec fn first_link(
    s: NetworkState,
    node: SimNodeId,
    channel: ChannelId,
    i: int,
) -> bool {
    &&& 0 <= i < s.links.len()
    &&& s.attempts.len() == s.links.len()
    &&& starts_at(s.links[i], node, channel)
    &&& forall|j: int| 0 <= j < i ==> !starts_at(#[trigger] s.links[j], node, channel)
}

/// One more packet has been tried on the link at `i`, and nothing but that and the counts is
/// new. Whether the packet was dropped is counted too.
pub open spec fn tried(s: NetworkState, t: NetworkState, i: int, dropped: bool) -> bool {
    &&& t.attempts.len() == s.attempts.len()
    &&& counted(s.attempts[i], t.attempts[i], 1)
    &&& forall|j: int|
        0 <= j < s.attempts.len() && j != i ==> #[trigger] t.attempts[j] == s.attempts[j]
    &&& counted(s.metrics.sent_packets, t.metrics.sent_packets, 1)
    &&& if dropped {
        counted(s.metrics.dropped_packets, t.metrics.dropped_packets, 1)
    } else {
        t.metrics.dropped_packets == s.metrics.dropped_packets
    }
    &&& t.metrics.delivered_packets == s.metrics.delivered_packets
    &&& t.metrics.delivered_local_bytes == s.metrics.delivered_local_bytes
    &&& t.metrics.last_delivery_ms == s.metrics.last_delivery_ms
    &&& t.now_ms == s.now_ms
    &&& t.links == s.links
    &&& t.delivered == s.delivered
}

/// The packets under way are the same.
pub open spec fn same_packets(s: NetworkState, t: NetworkState) -> bool {
    t.packets == s.packets && t.captured == s.captured && t.next_tx == s.next_tx
}

proof fn lemma_link_from(links: Seq<SimLink>, node: SimNodeId, channel: ChannelId)
    ensures
        match network::link_from(links, node, channel) {
            Some(i) => 0 <= i < links.len() && starts_at(links[i], node, channel) && forall|j: int|
                0 <= j < i ==> !starts_at(#[trigger] links[j], node, channel),
            None => forall|j: int|
                0 <= j < links.len() ==> !starts_at(#[trigger] links[j], node, channel),
        },
    decreases links.len(),
{
    if links.len() > 0 && !starts_at(links[0], node, channel) {
        let rest = links.drop_first();
        lemma_link_from(rest, node, channel);
        assert forall|j: int| 0 < j < links.len() implies #[trigger] links[j] == rest[j - 1] by {}
    }
}

proof fn lemma_first_link(s: NetworkState, node: SimNodeId, channel: ChannelId, i: int)
    requires
        first_link(s, node, channel, i),
    ensures
        network::link_from(s.links, node, channel) == Some(i),
{
    lemma_link_from(s.links, node, channel);
}

/// What is sent on a channel without a link comes back, and is counted as sent and dropped.
pub proof fn law_unlinked_channel_fails(
    s: NetworkState,
    node: SimNodeId,
    channel: ChannelId,
    bytes: Seq<u8>,
)
    requires
        forall|j: int|
            0 <= j < s.links.len() ==> !starts_at(#[trigger] s.links[j], node, channel),
    ensures
        ({
            let (t, outcome) = network::sent(s, node, channel, bytes);
            &&& outcome is None
            &&& counted(s.metrics.sent_packets, t.metrics.sent_packets, 1)
            &&& counted(s.metrics.dropped_packets, t.metrics.dropped_packets, 1)
            &&& t.metrics.delivered_packets == s.metrics.delivered_packets
            &&& t == (NetworkState { metrics: t.metrics, ..s })
        }),
{
    lemma_link_from(s.links, node, channel);
}

/// What is sent on a link that is down comes back.
pub proof fn law_link_that_is_down_fails(
    s: NetworkState,
    node: SimNodeId,
    channel: ChannelId,
    bytes: Seq<u8>,
    i: int,
)
    requires
        first_link(s, node, channel, i),
        link::down_at(s.links[i].down_windows@, s.now_ms),
    ensures
        ({
            let (t, outcome) = network::sent(s, node, channel, bytes);
            outcome is None && tried(s, t, i, true) && same_packets(s, t)
        }),
{
    lemma_first_link(s, node, channel, i);
}

/// A packet that the link loses goes nowhere, and its sender does not learn of it. The link
/// numbers the packets that have been tried on it, from 1.
pub proof fn law_packet_is_lost(
    s: NetworkState,
    node: SimNodeId,
    channel: ChannelId,
    bytes: Seq<u8>,
    i: int,
    number: u64,
)
    requires
        first_link(s, node, channel, i),
        !link::down_at(s.links[i].down_windows@, s.now_ms),
        counted(s.attempts[i], number, 1),
        link::lost(s.links[i].loss, number),
    ensures
        ({
            let (t, outcome) = network::sent(s, node, channel, bytes);
            outcome == Some(false) && tried(s, t, i, true) && same_packets(s, t)
        }),
{
    lemma_first_link(s, node, channel, i);
}

/// Any other packet is under way to the far end of the link. It starts when the packet before
/// it on the channel has left, or now; the next one starts when it has left itself. The other
/// channels do not notice.
pub proof fn law_packet_goes_on_its_way(
    s: NetworkState,
    node: SimNodeId,
    channel: ChannelId,
    bytes: Seq<u8>,
    i: int,
    number: u64,
    starts: u64,
)
    requires
        first_link(s, node, channel, i),
        !link::down_at(s.links[i].down_windows@, s.now_ms),
        counted(s.attempts[i], number, 1),
        !link::lost(s.links[i].loss, number),
        starts >= s.now_ms,
        s.next_tx.contains_key((node, channel as u64)) ==> starts >= s.next_tx[(
            node,
            channel as u64,
        )],
        starts == s.now_ms || s.next_tx.contains_key((node, channel as u64)) && starts
            == s.next_tx[(node, channel as u64)],
    ensures
        ({
            let (t, outcome) = network::sent(s, node, channel, bytes);
            let key = (node, channel as u64);
            let packet = t.packets.last();
            &&& outcome == Some(true)
            &&& tried(s, t, i, false)
            &&& t.packets == s.packets.push(packet)
            &&& packet.from_node == node
            &&& packet.from_channel_id == channel
            &&& packet.to_node == s.links[i].to_node
            &&& packet.to_channel_id == s.links[i].to_channel_id
            &&& packet.bytes == bytes
            &&& packet.due_ms == s.links[i].due_at(starts, bytes.len())
            &&& t.next_tx.contains_key(key)
            &&& t.next_tx[key] == s.links[i].sent_at(starts, bytes.len())
            &&& t.captured.contains_key(key)
            &&& t.captured[key] == packet
            &&& forall|other: (u64, u64)| #![auto]
                other != key ==> t.next_tx.contains_key(other) == s.next_tx.contains_key(other)
                    && t.next_tx[other] == s.next_tx[other] && t.captured.contains_key(other)
                    == s.captured.contains_key(other) && t.captured[other] == s.captured[other]
        }),
{
    lemma_first_link(s, node, channel, i);
}

/// When a packet arrives it is the time at which it is due, the packet is no longer under way
/// and the others are, and it is counted in all and for its channel.
pub proof fn law_packet_arrives(s: NetworkState, i: int)
    requires
        0 <= i < s.packets.len(),
    ensures
        ({
            let t = network::delivered(s, i);
            let packet = s.packets[i];
            let key = (packet.from_node, packet.from_channel_id as u64);
            &&& t.now_ms == packet.due_ms
            &&& t.packets == s.packets.take(i) + s.packets.skip(i + 1)
            &&& counted(s.metrics.delivered_packets, t.metrics.delivered_packets, 1)
            &&& t.metrics.sent_packets == s.metrics.sent_packets
            &&& t.metrics.dropped_packets == s.metrics.dropped_packets
            &&& t.metrics.delivered_local_bytes == s.metrics.delivered_local_bytes
            &&& t.delivered.contains_key(key)
            &&& if s.delivered.contains_key(key) {
                counted(s.delivered[key], t.delivered[key], 1)
            } else {
                t.delivered[key] == 1
            }
            &&& forall|other: (u64, u64)| #![auto]
                other != key ==> t.delivered.contains_key(other) == s.delivered.contains_key(other)
                    && t.delivered[other] == s.delivered[other]
            &&& t.links == s.links && t.attempts == s.attempts && t.captured == s.captured
                && t.next_tx == s.next_tx
        }),
{
    assert(s.packets.remove(i) =~= s.packets.take(i) + s.packets.skip(i + 1));
}

/// Bytes that have reached their session are counted, and the time is noted.
pub proof fn law_bytes_are_counted(s: NetworkState, len: nat)
    ensures
        ({
            let t = network::arrived(s, len);
            &&& counted(s.metrics.delivered_local_bytes, t.metrics.delivered_local_bytes, len)
            &&& t.metrics.last_delivery_ms == s.now_ms
            &&& t.metrics.sent_packets == s.metrics.sent_packets
            &&& t.metrics.delivered_packets == s.metrics.delivered_packets
            &&& t.metrics.dropped_packets == s.metrics.dropped_packets
            &&& t == (NetworkState { metrics: t.metrics, ..s })
        }),
{
}

/// The packets of one channel are taken out one by one, and the others stay in their order.
pub proof fn law_channel_is_cleared(
    packets: Seq<PacketState>,
    packet: PacketState,
    node: SimNodeId,
    channel: ChannelId,
)
    ensures
        network::without_channel(Seq::empty(), node, channel) == Seq::<PacketState>::empty(),
        network::without_channel(packets.push(packet), node, channel) == if packet.from_node
            == node && packet.from_channel_id == channel {
            network::without_channel(packets, node, channel)
        } else {
            network::without_channel(packets, node, channel).push(packet)
        },
{
    assert(packets.push(packet).drop_last() =~= packets);
}

/// A node that is overdue is polled a millisecond later, any other at its time.
pub proof fn law_poll_moves_the_time(now_ms: u64, due_ms: u64)
    ensures
        due_ms > now_ms ==> network::poll_time(now_ms, due_ms) == due_ms,
        due_ms <= now_ms < u64::MAX ==> network::poll_time(now_ms, due_ms) == now_ms + 1,
        network::poll_time(u64::MAX, due_ms) == u64::MAX,
{
}

// ---------------------------------------------------------------------------
// Sessions
// ---------------------------------------------------------------------------

/// What a node knows of its sessions: one that is opened is there with what it had, one that
/// receives bytes has them behind what it had, one that ends is gone with the write that
/// waited. The other sessions stay as they are.
pub proof fn law_sessions_change_alone(
    s: SessionsState,
    conv_id: ConvId,
    bytes: Seq<u8>,
    other: ConvId,
)
    requires
        other != conv_id,
    ensures
        ({
            let opened = node::opened(s, conv_id);
            let grown = node::grown(s, conv_id, bytes);
            let closed = node::closed(s, conv_id);
            &&& opened.sessions.contains_key(conv_id)
            &&& opened.sessions[conv_id] == if s.sessions.contains_key(conv_id) {
                s.sessions[conv_id]
            } else {
                Seq::empty()
            }
            &&& grown.sessions.contains_key(conv_id)
            &&& grown.sessions[conv_id] == opened.sessions[conv_id] + bytes
            &&& !closed.sessions.contains_key(conv_id)
            &&& !closed.blocked.contains_key(conv_id)
            &&& opened.blocked == s.blocked && grown.blocked == s.blocked
            &&& opened.sessions.contains_key(other) == s.sessions.contains_key(other)
            &&& grown.sessions.contains_key(other) == s.sessions.contains_key(other)
            &&& closed.sessions.contains_key(other) == s.sessions.contains_key(other)
            &&& closed.blocked.contains_key(other) == s.blocked.contains_key(other)
            &&& s.sessions.contains_key(other) ==> opened.sessions[other] == s.sessions[other]
                && grown.sessions[other] == s.sessions[other] && closed.sessions[other]
                == s.sessions[other]
            &&& s.blocked.contains_key(other) ==> closed.blocked[other] == s.blocked[other]
        }),
{
}

/// A write that was blocked waits, with its bytes. One that was not waits no longer.
pub proof fn law_blocked_write_waits(
    s: SessionsState,
    conv_id: ConvId,
    bytes: Seq<u8>,
    result: CoreEventResult,
    other: ConvId,
)
    requires
        other != conv_id,
    ensures
        ({
            let t = run::noted_write(s, conv_id, bytes, result);
            &&& t.blocked.contains_key(conv_id) <==> result == CoreEventResult::SessionWriteBlocked
            &&& t.blocked.contains_key(conv_id) ==> t.blocked[conv_id] == bytes
            &&& t.blocked.contains_key(other) == s.blocked.contains_key(other)
            &&& s.blocked.contains_key(other) ==> t.blocked[other] == s.blocked[other]
            &&& t.sessions == s.sessions
        }),
{
}

// ---------------------------------------------------------------------------
// Actions
// ---------------------------------------------------------------------------

/// Actions are carried out in their order. A packet goes on the network, and what comes back
/// is told to the endpoint, whose answer comes before what was left to do.
pub proof fn law_packets_are_sent(
    p: Place,
    r: Run,
    channel_id: u16,
    bytes: Seq<u8>,
    rest: Seq<ActionState>,
)
    requires
        !r.halted,
        r.work == seq![ActionState::SendTransportPacket { channel_id, bytes }] + rest,
        p.elapsed_ms < u64::MAX,
    ensures
        ({
            let t = run::step(p, r);
            let (net, outcome) = network::sent(r.net, p.node, channel_id, bytes);
            let event = EventState::TransportPacketSendFailed { channel_id, bytes };
            let before = Step { core: r.core, actions: Seq::<ActionState>::empty() };
            let after = model::event_handled(before, p.elapsed_ms, event).0;
            &&& t.net == net
            &&& t.sessions == r.sessions
            &&& outcome is Some ==> t.core == r.core && t.work == rest && !t.halted
            &&& outcome is None && model::event_acceptable(r.core, p.elapsed_ms, event)
                ==> t.core == after.core && t.work == after.actions + rest && !t.halted
            &&& outcome is None && !model::event_acceptable(r.core, p.elapsed_ms, event)
                ==> t.halted
        }),
{
    assert(r.work.drop_first() =~= rest);
    assert(r.work[0] == (ActionState::SendTransportPacket { channel_id, bytes }));
}

/// Bytes for a session are kept, and counted, unless the endpoint echoes: then they are
/// written to the session they came from, and the answer comes before what was left to do.
pub proof fn law_bytes_are_kept_or_echoed(
    p: Place,
    r: Run,
    conv_id: ConvId,
    bytes: Seq<u8>,
    rest: Seq<ActionState>,
)
    requires
        !r.halted,
        r.work == seq![ActionState::WriteSession { conv_id, bytes }] + rest,
    ensures
        ({
            let t = run::step(p, r);
            let event = EventState::SessionWrite { conv_id, bytes };
            let before = Step { core: r.core, actions: Seq::<ActionState>::empty() };
            let (after, result) = model::event_handled(before, p.elapsed_ms, event);
            let grown = node::grown(r.sessions, conv_id, bytes);
            &&& !p.echo ==> {
                &&& t.core == r.core
                &&& t.sessions == grown
                &&& t.net == network::arrived(r.net, bytes.len())
                &&& t.work == rest
            }
            &&& p.echo ==> t.net == r.net
            &&& p.echo && model::event_acceptable(r.core, p.elapsed_ms, event) ==> {
                &&& t.core == after.core
                &&& t.sessions == run::noted_write(grown, conv_id, bytes, result)
                &&& t.work == after.actions + rest
            }
        }),
{
    assert(r.work.drop_first() =~= rest);
    assert(r.work[0] == (ActionState::WriteSession { conv_id, bytes }));
}

/// Sessions are opened and closed as the endpoint says, and nothing else happens.
pub proof fn law_sessions_come_and_go(p: Place, r: Run, action: ActionState, rest: Seq<ActionState>)
    requires
        !r.halted,
        r.work == seq![action] + rest,
    ensures
        action matches ActionState::OpenSession { conv_id } ==> run::step(p, r) == (Run {
            sessions: node::opened(r.sessions, conv_id),
            work: rest,
            ..r
        }),
        action matches ActionState::CloseSession { conv_id, .. } ==> run::step(p, r) == (Run {
            sessions: node::closed(r.sessions, conv_id),
            work: rest,
            ..r
        }),
{
    assert(r.work.drop_first() =~= rest);
    assert(r.work[0] == action);
}

} // verus!
