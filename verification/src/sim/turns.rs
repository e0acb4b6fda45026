//! What the turns of a simulated shell promise: which node or packet is next, what time it is
//! then, and what an event comes to at a node.
use vstd::prelude::*;

use crate::endpoint::driver;
use crate::endpoint::model;
use crate::endpoint::model::Step;
use crate::machine::{ActionState, ChannelId, ConvId, CoreEventResult, EventState};
use crate::ordered;
use crate::relay;
use crate::relay::RelayState;
use crate::sim::link::SimNodeId;
use crate::sim::network;
use crate::sim::network::NetworkState;
use crate::sim::node;
use crate::sim::node::SessionsState;
use crate::sim::run;
use crate::sim::run::{Place, Run};
use crate::sim::shell;
use crate::sim::shell::{EndpointNodeState, NodeState, RelayNodeState, ShellState};

verus! {

/// The endpoint has done the actions, from this state, and nothing is left of them. Its
/// clock started with the node.
pub open spec fn has_done(
    s: ShellState,
    t: ShellState,
    id: SimNodeId,
    n: EndpointNodeState,
    sessions: SessionsState,
    st: Step,
) -> bool {
    let start = Run {
        net: s.net,
        core: st.core,
        sessions,
        work: st.actions,
        halted: false,
    };
    let place = Place {
        node: id,
        elapsed_ms: (s.net.now_ms - n.started_at_ms) as u64,
        echo: n.echo,
    };
    let end = run::settled(place, start);
    &&& t.net == end.net
    &&& t.halted == (s.halted || end.halted)
    &&& t.nodes.contains_key(id)
    &&& t.nodes[id] == NodeState::Endpoint(
        EndpointNodeState { core: end.core, sessions: end.sessions, ..n },
    )
    &&& forall|other: SimNodeId| #![auto]
        other != id ==> t.nodes.contains_key(other) == s.nodes.contains_key(other) && (
        s.nodes.contains_key(other) ==> t.nodes[other] == s.nodes[other])
}

/// An event at an endpoint is handled at the time that has passed since the node started, and
/// then the actions that it leads to are done. An event that the endpoint does not expect
/// halts the shell and changes nothing.
pub proof fn law_endpoint_takes_the_event(
    s: ShellState,
    id: SimNodeId,
    n: EndpointNodeState,
    event: EventState,
)
    requires
        s.nodes.contains_key(id),
        s.nodes[id] == NodeState::Endpoint(n),
        n.started_at_ms <= s.net.now_ms,
    ensures
        ({
            let elapsed_ms = (s.net.now_ms - n.started_at_ms) as u64;
            let t = shell::event_taken(s, id, event);
            let before = Step { core: n.core, actions: Seq::<ActionState>::empty() };
            if model::event_acceptable(n.core, elapsed_ms, event) {
                let after = model::event_handled(before, elapsed_ms, event).0;
                has_done(s, t, id, n, n.sessions, after)
            } else {
                t == ShellState { halted: true, ..s }
            }
        }),
{
}

/// A session that is opened has the next number of the endpoint, and is there from the start.
pub proof fn law_opened_session_is_there(s: ShellState, id: SimNodeId, n: EndpointNodeState)
    requires
        s.nodes.contains_key(id),
        s.nodes[id] == NodeState::Endpoint(n),
        n.started_at_ms <= s.net.now_ms,
    ensures
        ({
            let (t, conv_id) = shell::session_opened(s, id);
            let before = Step { core: n.core, actions: Seq::<ActionState>::empty() };
            let after = model::event_handled(
                before,
                (s.net.now_ms - n.started_at_ms) as u64,
                EventState::SessionOpen,
            ).0;
            &&& conv_id == n.core.next_conv_id
            &&& has_done(s, t, id, n, node::opened(n.sessions, conv_id), after)
        }),
{
}

/// A write is taken or blocked as the endpoint says, and one that is blocked waits.
pub proof fn law_write_is_taken_or_waits(
    s: ShellState,
    id: SimNodeId,
    n: EndpointNodeState,
    conv_id: ConvId,
    bytes: Seq<u8>,
)
    requires
        s.nodes.contains_key(id),
        s.nodes[id] == NodeState::Endpoint(n),
        n.started_at_ms <= s.net.now_ms,
    ensures
        ({
            let elapsed_ms = (s.net.now_ms - n.started_at_ms) as u64;
            let event = EventState::SessionWrite { conv_id, bytes };
            let (t, taken) = shell::bytes_sent(s, id, conv_id, bytes);
            let before = Step { core: n.core, actions: Seq::<ActionState>::empty() };
            let (after, result) = model::event_handled(before, elapsed_ms, event);
            if model::event_acceptable(n.core, elapsed_ms, event) {
                &&& taken <==> result == CoreEventResult::Handled
                &&& has_done(
                    s,
                    t,
                    id,
                    n,
                    run::noted_write(n.sessions, conv_id, bytes, result),
                    after,
                )
            } else {
                !taken && t == ShellState { halted: true, ..s }
            }
        }),
{
}

/// A relay deals with an event at the time that has passed since it started. The packets that
/// it sends go on the network one after the other, and what comes back is told to it.
pub proof fn law_relay_takes_the_event(
    s: ShellState,
    id: SimNodeId,
    n: RelayNodeState,
    event: EventState,
)
    requires
        s.nodes.contains_key(id),
        s.nodes[id] == NodeState::Relay(n),
        n.started_at_ms <= s.net.now_ms,
    ensures
        ({
            let elapsed_ms = (s.net.now_ms - n.started_at_ms) as u64;
            let t = shell::event_taken(s, id, event);
            let (core, actions) = relay::relay_step(n.core, elapsed_ms, event);
            let (net, end) = shell::relayed(s.net, core, id, elapsed_ms, actions);
            &&& t.net == net
            &&& t.halted == s.halted
            &&& t.nodes.contains_key(id)
            &&& t.nodes[id] == NodeState::Relay(RelayNodeState { core: end, ..n })
        }),
{
}

/// The packets of a relay go on the network one after the other, and a packet that comes back
/// is told to it before the next one is sent.
pub proof fn law_relay_sends_in_order(
    net: NetworkState,
    core: RelayState,
    id: SimNodeId,
    elapsed_ms: u64,
    channel_id: ChannelId,
    bytes: Seq<u8>,
    rest: Seq<ActionState>,
)
    ensures
        shell::relayed(net, core, id, elapsed_ms, Seq::empty()) == (net, core),
        ({
            let action = ActionState::SendTransportPacket { channel_id, bytes };
            let (sent, outcome) = network::sent(net, id, channel_id, bytes);
            let told = relay::relay_step(
                core,
                elapsed_ms,
                EventState::TransportPacketSendFailed { channel_id, bytes },
            ).0;
            shell::relayed(net, core, id, elapsed_ms, seq![action] + rest) == shell::relayed(
                sent,
                if outcome is None {
                    told
                } else {
                    core
                },
                id,
                elapsed_ms,
                rest,
            )
        }),
{
    let action = ActionState::SendTransportPacket { channel_id, bytes };
    assert((seq![action] + rest).drop_first() =~= rest);
}

// ---------------------------------------------------------------------------
// Waiting writes
// ---------------------------------------------------------------------------

/// The writes that wait are those that were blocked, each with its bytes, in the order of the
/// sessions.
pub proof fn law_waiting_writes(s: SessionsState)
    requires
        s.blocked.dom().finite(),
    ensures
        forall|i: int| 0 <= i < shell::waiting(s).len() ==> s.blocked.contains_key(
            (#[trigger] shell::waiting(s)[i]).0,
        ) && shell::waiting(s)[i].1 == s.blocked[shell::waiting(s)[i].0],
        forall|i: int, j: int|
            0 <= i < j < shell::waiting(s).len() ==> (#[trigger] shell::waiting(s)[i]).0 < (
            #[trigger] shell::waiting(s)[j]).0,
        forall|conv_id: ConvId| #[trigger]
            s.blocked.contains_key(conv_id) ==> shell::waiting(s).contains(
                (conv_id, s.blocked[conv_id]),
            ),
{
    let convs = ordered::ascending(s.blocked.dom());
    ordered::lemma_ascending_exists(s.blocked.dom());
    assert forall|i: int| 0 <= i < shell::waiting(s).len() implies s.blocked.contains_key(
        (#[trigger] shell::waiting(s)[i]).0,
    ) && shell::waiting(s)[i].1 == s.blocked[shell::waiting(s)[i].0] by {
        assert(convs.contains(convs[i]));
        assert(s.blocked.dom().contains(convs[i]));
    }
    assert forall|conv_id: ConvId| #[trigger]
        s.blocked.contains_key(conv_id) implies shell::waiting(s).contains(
        (conv_id, s.blocked[conv_id]),
    ) by {
        assert(s.blocked.dom().contains(conv_id));
        let i = choose|i: int| 0 <= i < convs.len() && convs[i] == conv_id;
        assert(shell::waiting(s)[i] == (conv_id, s.blocked[conv_id]));
    }
}

/// Writes are tried again one after the other, and nodes one after the other, until something
/// halts the shell.
pub proof fn law_writes_are_tried_in_order(
    s: ShellState,
    id: SimNodeId,
    write: (ConvId, Seq<u8>),
    writes: Seq<(ConvId, Seq<u8>)>,
    ids: Seq<SimNodeId>,
)
    ensures
        shell::writes_retried(s, id, Seq::empty()) == s,
        shell::nodes_retried(s, Seq::empty()) == s,
        s.halted ==> shell::writes_retried(s, id, writes) == s && shell::nodes_retried(s, ids) == s,
        !s.halted ==> shell::writes_retried(s, id, seq![write] + writes) == shell::writes_retried(
            shell::bytes_sent(s, id, write.0, write.1).0,
            id,
            writes,
        ),
        !s.halted && s.nodes.contains_key(id) && s.nodes[id] is Endpoint
            ==> shell::nodes_retried(s, seq![id] + ids) == shell::nodes_retried(
            shell::writes_retried(s, id, shell::waiting(s.nodes[id]->Endpoint_0.sessions)),
            ids,
        ),
        !s.halted && !(s.nodes.contains_key(id) && s.nodes[id] is Endpoint)
            ==> shell::nodes_retried(s, seq![id] + ids) == shell::nodes_retried(s, ids),
{
    assert((seq![write] + writes).drop_first() =~= writes);
    assert((seq![write] + writes)[0] == write);
    assert((seq![id] + ids).drop_first() =~= ids);
    assert((seq![id] + ids)[0] == id);
}

proof fn lemma_write_takes_no_time(
    s: ShellState,
    id: SimNodeId,
    conv_id: ConvId,
    bytes: Seq<u8>,
)
    ensures
        shell::bytes_sent(s, id, conv_id, bytes).0.net.now_ms == s.net.now_ms,
{
    let n = s.nodes[id]->Endpoint_0;
    let elapsed_ms = shell::since(s.net.now_ms, n.started_at_ms);
    let event = EventState::SessionWrite { conv_id, bytes };
    let (st, result) = model::event_handled(
        Step { core: n.core, actions: Seq::empty() },
        elapsed_ms,
        event,
    );
    run::law_actions_take_no_time(
        shell::place_of(s.net.now_ms, id, n),
        Run {
            net: s.net,
            core: st.core,
            sessions: run::noted_write(n.sessions, conv_id, bytes, result),
            work: st.actions,
            halted: false,
        },
    );
}

proof fn lemma_writes_take_no_time(
    s: ShellState,
    id: SimNodeId,
    writes: Seq<(ConvId, Seq<u8>)>,
)
    ensures
        shell::writes_retried(s, id, writes).net.now_ms == s.net.now_ms,
    decreases writes.len(),
{
    if writes.len() > 0 && !s.halted {
        lemma_write_takes_no_time(s, id, writes[0].0, writes[0].1);
        lemma_writes_take_no_time(
            shell::bytes_sent(s, id, writes[0].0, writes[0].1).0,
            id,
            writes.drop_first(),
        );
    }
}

proof fn lemma_nodes_take_no_time(s: ShellState, ids: Seq<SimNodeId>)
    ensures
        shell::nodes_retried(s, ids).net.now_ms == s.net.now_ms,
    decreases ids.len(),
{
    if ids.len() > 0 && !s.halted {
        if shell::is_endpoint(s, ids[0]) {
            lemma_writes_take_no_time(
                s,
                ids[0],
                shell::waiting(s.nodes[ids[0]]->Endpoint_0.sessions),
            );
        }
        lemma_nodes_take_no_time(shell::node_retried(s, ids[0]), ids.drop_first());
    }
}

/// Trying again takes no time.
pub proof fn law_retries_take_no_time(s: ShellState)
    ensures
        shell::retried(s).net.now_ms == s.net.now_ms,
{
    lemma_nodes_take_no_time(s, ordered::ascending(s.nodes.dom()));
}

// ---------------------------------------------------------------------------
// Turns
// ---------------------------------------------------------------------------

/// A relay never asks to be polled. An endpoint does at its deadline, counted from its start,
/// or not at all if it has none.
pub proof fn law_when_a_node_is_due(now_ms: u64, n: EndpointNodeState, m: RelayNodeState)
    requires
        n.started_at_ms <= now_ms,
    ensures
        ({
            let deadline = shell::deadline_of(n.core, (now_ms - n.started_at_ms) as u64);
            let due = shell::due_of(now_ms, NodeState::Endpoint(n));
            &&& shell::due_of(now_ms, NodeState::Relay(m)) is None
            &&& due is None <==> deadline == u64::MAX
            &&& due is Some && deadline + n.started_at_ms <= u64::MAX ==> due->0 - n.started_at_ms
                == deadline
            &&& due is Some && deadline + n.started_at_ms > u64::MAX ==> due->0 == u64::MAX
        }),
{
}

proof fn lemma_poll_takes_no_time(s: ShellState, id: SimNodeId)
    ensures
        shell::node_polled(s, id).net.now_ms == s.net.now_ms,
{
    if s.nodes.contains_key(id) {
        match s.nodes[id] {
            NodeState::Endpoint(n) => {
                let st = model::polled(
                    Step { core: n.core, actions: Seq::empty() },
                    shell::since(s.net.now_ms, n.started_at_ms),
                );
                run::law_actions_take_no_time(
                    shell::place_of(s.net.now_ms, id, n),
                    Run {
                        net: s.net,
                        core: st.core,
                        sessions: n.sessions,
                        work: st.actions,
                        halted: false,
                    },
                );
                law_retries_take_no_time(
                    shell::carried_out(
                        s,
                        id,
                        EndpointNodeState { core: st.core, ..n },
                        st.actions,
                    ),
                );
            },
            NodeState::Relay(_) => {
                law_retries_take_no_time(s);
            },
        }
    }
}

/// An endpoint that is polled at some time does what it wants done then, and after that all
/// nodes try their writes again.
pub proof fn law_polled_endpoint_acts(s: ShellState, id: SimNodeId, n: EndpointNodeState) -> (
    polled: ShellState)
    requires
        s.nodes.contains_key(id),
        s.nodes[id] == NodeState::Endpoint(n),
        n.started_at_ms <= s.net.now_ms,
    ensures
        has_done(
            s,
            polled,
            id,
            n,
            n.sessions,
            model::polled(
                Step { core: n.core, actions: Seq::empty() },
                (s.net.now_ms - n.started_at_ms) as u64,
            ),
        ),
        shell::node_polled(s, id) == shell::retried(polled),
{
    let st = model::polled(
        Step { core: n.core, actions: Seq::empty() },
        shell::since(s.net.now_ms, n.started_at_ms),
    );
    shell::carried_out(s, id, EndpointNodeState { core: st.core, ..n }, st.actions)
}

/// In a turn the writes that wait are tried first. Then the node that is due first is polled,
/// if that is before the first packet arrives: at its time, or a millisecond later where that
/// has passed.
pub proof fn law_turn_polls_the_first(s: ShellState, id: SimNodeId, due_ms: u64)
    requires
        !shell::retried(s).halted,
        shell::polls_first(shell::retried(s), id, due_ms),
        forall|i: int|
            0 <= i < shell::retried(s).net.packets.len() ==> due_ms < (
            #[trigger] shell::retried(s).net.packets[i]).due_ms,
    ensures
        ({
            let ready = shell::retried(s);
            let (t, go) = shell::round(s);
            let now_ms = t.net.now_ms;
            &&& go
            &&& due_ms > s.net.now_ms ==> now_ms == due_ms
            &&& due_ms <= s.net.now_ms < u64::MAX ==> now_ms == s.net.now_ms + 1
            &&& t == shell::node_polled(
                ShellState { net: NetworkState { now_ms, ..ready.net }, ..ready },
                id,
            )
        }),
{
    let ready = shell::retried(s);
    shell::lemma_next_poll(ready, id, due_ms);
    law_retries_take_no_time(s);
    let packets = ready.net.packets;
    if packets.len() > 0 {
        let i = shell::lemma_some_packet(packets);
        shell::lemma_first_packet(packets, i);
    }
    let at = network::poll_time(ready.net.now_ms, due_ms);
    lemma_poll_takes_no_time(
        ShellState { net: NetworkState { now_ms: at, ..ready.net }, ..ready },
        id,
    );
}

/// Otherwise the packet that is due first arrives, the first of those that are due together:
/// it is taken off the network, and the node at the far end of its link receives its bytes on
/// the channel of that end.
pub proof fn law_turn_delivers_the_first(s: ShellState, i: int)
    requires
        !shell::retried(s).halted,
        network::next_packet(shell::retried(s).net.packets, i),
        forall|id: SimNodeId, due_ms: u64|
            shell::polls_first(shell::retried(s), id, due_ms) ==> shell::retried(
                s,
            ).net.packets[i].due_ms <= due_ms,
    ensures
        ({
            let ready = shell::retried(s);
            let packet = ready.net.packets[i];
            let (t, go) = shell::round(s);
            &&& go
            &&& t.net.now_ms == packet.due_ms
            &&& t == shell::event_taken(
                ShellState { net: network::delivered(ready.net, i), ..ready },
                packet.to_node,
                EventState::TransportPacketReceived {
                    channel_id: packet.to_channel_id,
                    bytes: packet.bytes,
                },
            )
        }),
{
    let ready = shell::retried(s);
    let packet = ready.net.packets[i];
    shell::lemma_first_packet(ready.net.packets, i);
    if exists|id: SimNodeId, due_ms: u64| shell::polls_first(ready, id, due_ms) {
        let (id, due_ms) = choose|id: SimNodeId, due_ms: u64|
            shell::polls_first(ready, id, due_ms);
        assert(shell::polls_first(ready, id, due_ms));
    }
    let at = ShellState { net: network::delivered(ready.net, i), ..ready };
    let event = EventState::TransportPacketReceived {
        channel_id: packet.to_channel_id,
        bytes: packet.bytes,
    };
    let other: SimNodeId = if packet.to_node == 0 {
        1
    } else {
        0
    };
    shell::law_nodes_act_alone(at, packet.to_node, event, other);
}

/// Where no node asks to be polled and no packet is under way, nothing happens any more.
pub proof fn law_quiet_shell_rests(s: ShellState)
    requires
        shell::retried(s).net.packets.len() == 0,
        forall|id: SimNodeId, due_ms: u64| !shell::polls_first(shell::retried(s), id, due_ms),
    ensures
        shell::round(s) == (shell::retried(s), false),
{
}

/// Turns follow one another: to run for some turns and then for more is to run for all of
/// them, unless there was nothing to do.
pub proof fn law_turns_follow(s: ShellState, steps: nat)
    ensures
        shell::ran(s, 0) == s,
        s.halted ==> shell::ran(s, steps) == s,
        !s.halted && shell::round(s).1 ==> shell::ran(s, steps + 1) == shell::ran(
            shell::round(s).0,
            steps,
        ),
        !s.halted && !shell::round(s).1 ==> shell::ran(s, steps + 1) == shell::round(s).0,
{
}

// ---------------------------------------------------------------------------
// Restarts
// ---------------------------------------------------------------------------

/// After a restart an endpoint is new, with its keys, its routes and its settings, the next
/// seed and no sessions. Its wall clock shows what it would have shown without the restart.
pub proof fn law_restarted_endpoint(
    now_ms: u64,
    n: EndpointNodeState,
    m: EndpointNodeState,
    then_ms: u64,
)
    requires
        shell::restarted(now_ms, NodeState::Endpoint(n), NodeState::Endpoint(m)),
        n.started_at_ms <= now_ms <= then_ms,
        n.config.boot_time_ms + (now_ms - n.started_at_ms) <= u64::MAX,
    ensures
        m.config.boot_time_ms + (then_ms - m.started_at_ms) == n.config.boot_time_ms + (then_ms
            - n.started_at_ms),
        node::seed_value(m.config.random_seed@) == node::seed_value(n.config.random_seed@) + 1,
        m.config.envelope_key == n.config.envelope_key,
        m.config.message_key == n.config.message_key,
        m.config.kcp == n.config.kcp,
        m.config.route == n.config.route,
        m.config.local_channels == n.config.local_channels,
        m.config.padding_reserve == n.config.padding_reserve,
        m.config.keepalive_interval_ms == n.config.keepalive_interval_ms,
        m.core == driver::endpoint_init(m.config),
        m.started_at_ms == now_ms,
        m.sessions.sessions.dom() == Set::<ConvId>::empty(),
        m.sessions.blocked.dom() == Set::<ConvId>::empty(),
        m.echo == n.echo,
{
}

/// The same of a relay.
pub proof fn law_restarted_relay(
    now_ms: u64,
    n: RelayNodeState,
    m: RelayNodeState,
    then_ms: u64,
)
    requires
        shell::restarted(now_ms, NodeState::Relay(n), NodeState::Relay(m)),
        n.started_at_ms <= now_ms <= then_ms,
        n.config.boot_time_ms + (now_ms - n.started_at_ms) <= u64::MAX,
    ensures
        m.config.boot_time_ms + (then_ms - m.started_at_ms) == n.config.boot_time_ms + (then_ms
            - n.started_at_ms),
        node::seed_value(m.config.random_seed@) == node::seed_value(n.config.random_seed@) + 1,
        m.config.envelope_key == n.config.envelope_key,
        m.config.local_channels == n.config.local_channels,
        m.config.local_min_mtu == n.config.local_min_mtu,
        m.core == relay::relay_init(m.config),
        m.started_at_ms == now_ms,
{
}

} // verus!
