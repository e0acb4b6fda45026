//! A shell that runs endpoints and relays on a simulated network, in virtual time.
use std::collections::BTreeMap;
use vstd::prelude::*;

use crate::endpoint::driver;
use crate::endpoint::driver::{EndpointConfig, EndpointCore};
use crate::endpoint::model;
use crate::endpoint::model::{EndpointState, Step};
use crate::machine;
use crate::machine::{
    ActionState, ChannelId, CloseReason, ConvId, CoreAction, CoreEvent, CoreEventResult, EventState,
};
use crate::ordered;
use crate::relay;
use crate::relay::{RelayConfig, RelayCore, RelayState};
use crate::sim::link;
use crate::sim::link::{SimLink, SimNodeId};
use crate::sim::network;
use crate::sim::network::{
    Network, NetworkState, PacketState, SendOutcome, SimStep, TestMetrics,
};
use crate::sim::node;
use crate::sim::node::{NodeSessions, SessionsState};
use crate::sim::run;
use crate::sim::run::{Place, Run};
use crate::sim::setup;

verus! {

broadcast use {vstd::std_specs::btree::group_btree_axioms, vstd::laws_cmp::group_laws_cmp};

// ---------------------------------------------------------------------------
// Model
// ---------------------------------------------------------------------------

#[verifier::ext_equal]
pub struct EndpointNodeState {
    pub core: EndpointState,
    pub config: EndpointConfig,
    pub started_at_ms: u64,
    pub sessions: SessionsState,
    pub echo: bool,
}

#[verifier::ext_equal]
pub struct RelayNodeState {
    pub core: RelayState,
    pub config: RelayConfig,
    pub started_at_ms: u64,
}

#[verifier::ext_equal]
pub enum NodeState {
    Endpoint(EndpointNodeState),
    Relay(RelayNodeState),
}

/// The state of a shell.
#[verifier::ext_equal]
pub struct ShellState {
    pub net: NetworkState,
    pub nodes: Map<SimNodeId, NodeState>,
    /// Something has come up that a core and the shell do not expect of each other.
    pub halted: bool,
}

/// How long a node has run.
pub open spec fn since(now_ms: u64, started_at_ms: u64) -> u64 {
    if now_ms >= started_at_ms {
        (now_ms - started_at_ms) as u64
    } else {
        0
    }
}

pub open spec fn started_at(n: NodeState) -> u64 {
    match n {
        NodeState::Endpoint(n) => n.started_at_ms,
        NodeState::Relay(n) => n.started_at_ms,
    }
}

/// The endpoint, and its time.
pub open spec fn place_of(now_ms: u64, id: SimNodeId, n: EndpointNodeState) -> Place {
    Place { node: id, elapsed_ms: since(now_ms, n.started_at_ms), echo: n.echo }
}

pub open spec fn is_endpoint(s: ShellState, id: SimNodeId) -> bool {
    s.nodes.contains_key(id) && s.nodes[id] is Endpoint
}

/// The actions of an endpoint are carried out.
pub open spec fn carried_out(
    s: ShellState,
    id: SimNodeId,
    n: EndpointNodeState,
    actions: Seq<ActionState>,
) -> ShellState {
    let end = run::settled(
        place_of(s.net.now_ms, id, n),
        Run {
            net: s.net,
            core: n.core,
            sessions: n.sessions,
            work: actions,
            halted: false,
        },
    );
    ShellState {
        net: end.net,
        nodes: s.nodes.insert(
            id,
            NodeState::Endpoint(
                EndpointNodeState { core: end.core, sessions: end.sessions, ..n },
            ),
        ),
        halted: s.halted || end.halted,
    }
}

/// The actions of a relay are carried out.
pub open spec fn relayed(
    net: NetworkState,
    core: RelayState,
    id: SimNodeId,
    elapsed_ms: u64,
    actions: Seq<ActionState>,
) -> (NetworkState, RelayState)
    decreases actions.len(),
{
    if actions.len() == 0 {
        (net, core)
    } else {
        let (next_net, next_core) = match actions[0] {
            ActionState::SendTransportPacket { channel_id, bytes } => {
                let (sent_net, outcome) = network::sent(net, id, channel_id, bytes);
                let event = EventState::TransportPacketSendFailed { channel_id, bytes };
                (
                    sent_net,
                    if outcome is None {
                        relay::relay_step(core, elapsed_ms, event).0
                    } else {
                        core
                    },
                )
            },
            ActionState::WriteSession { bytes, .. } => (network::arrived(net, bytes.len()), core),
            _ => (net, core),
        };
        relayed(next_net, next_core, id, elapsed_ms, actions.drop_first())
    }
}

/// A node deals with an event.
pub open spec fn event_taken(s: ShellState, id: SimNodeId, event: EventState) -> ShellState {
    if !s.nodes.contains_key(id) {
        s
    } else {
        match s.nodes[id] {
            NodeState::Endpoint(n) => {
                let elapsed_ms = since(s.net.now_ms, n.started_at_ms);
                if !model::event_acceptable(n.core, elapsed_ms, event) {
                    ShellState { halted: true, ..s }
                } else {
                    let st = model::event_handled(
                        Step { core: n.core, actions: Seq::empty() },
                        elapsed_ms,
                        event,
                    ).0;
                    carried_out(s, id, EndpointNodeState { core: st.core, ..n }, st.actions)
                }
            },
            NodeState::Relay(n) => {
                let elapsed_ms = since(s.net.now_ms, n.started_at_ms);
                let (core, actions) = relay::relay_step(n.core, elapsed_ms, event);
                let (net, end) = relayed(s.net, core, id, elapsed_ms, actions);
                ShellState {
                    net,
                    nodes: s.nodes.insert(
                        id,
                        NodeState::Relay(RelayNodeState { core: end, ..n }),
                    ),
                    ..s
                }
            },
        }
    }
}

/// An endpoint opens a session.
pub open spec fn session_opened(s: ShellState, id: SimNodeId) -> (ShellState, ConvId) {
    let n = s.nodes[id]->Endpoint_0;
    let st = model::event_handled(
        Step { core: n.core, actions: Seq::empty() },
        since(s.net.now_ms, n.started_at_ms),
        EventState::SessionOpen,
    ).0;
    let conv_id = n.core.next_conv_id;
    (
        carried_out(
            s,
            id,
            EndpointNodeState {
                core: st.core,
                sessions: node::opened(n.sessions, conv_id),
                ..n
            },
            st.actions,
        ),
        conv_id,
    )
}

/// A session of an endpoint writes: the shell after it, and whether the write was taken.
pub open spec fn bytes_sent(
    s: ShellState,
    id: SimNodeId,
    conv_id: ConvId,
    bytes: Seq<u8>,
) -> (ShellState, bool) {
    let n = s.nodes[id]->Endpoint_0;
    let elapsed_ms = since(s.net.now_ms, n.started_at_ms);
    let event = EventState::SessionWrite { conv_id, bytes };
    if !model::event_acceptable(n.core, elapsed_ms, event) {
        (ShellState { halted: true, ..s }, false)
    } else {
        let (st, result) = model::event_handled(
            Step { core: n.core, actions: Seq::empty() },
            elapsed_ms,
            event,
        );
        (
            carried_out(
                s,
                id,
                EndpointNodeState {
                    core: st.core,
                    sessions: run::noted_write(n.sessions, conv_id, bytes, result),
                    ..n
                },
                st.actions,
            ),
            result == CoreEventResult::Handled,
        )
    }
}

/// The writes that wait, in the order of their sessions.
pub open spec fn waiting(s: SessionsState) -> Seq<(ConvId, Seq<u8>)> {
    let convs = ordered::ascending(s.blocked.dom());
    Seq::new(convs.len(), |i: int| (convs[i], s.blocked[convs[i]]))
}

/// An endpoint tries its writes again, one after the other.
pub open spec fn writes_retried(
    s: ShellState,
    id: SimNodeId,
    writes: Seq<(ConvId, Seq<u8>)>,
) -> ShellState
    decreases writes.len(),
{
    if writes.len() == 0 || s.halted {
        s
    } else {
        writes_retried(bytes_sent(s, id, writes[0].0, writes[0].1).0, id, writes.drop_first())
    }
}

/// A node tries the writes again that wait.
pub open spec fn node_retried(s: ShellState, id: SimNodeId) -> ShellState {
    if is_endpoint(s, id) {
        writes_retried(s, id, waiting(s.nodes[id]->Endpoint_0.sessions))
    } else {
        s
    }
}

pub open spec fn nodes_retried(s: ShellState, ids: Seq<SimNodeId>) -> ShellState
    decreases ids.len(),
{
    if ids.len() == 0 || s.halted {
        s
    } else {
        nodes_retried(node_retried(s, ids[0]), ids.drop_first())
    }
}

/// All nodes, in their order, try the writes again that wait.
pub open spec fn retried(s: ShellState) -> ShellState {
    nodes_retried(s, ordered::ascending(s.nodes.dom()))
}

/// Time has passed for a node.
pub open spec fn node_polled(s: ShellState, id: SimNodeId) -> ShellState {
    if !s.nodes.contains_key(id) {
        s
    } else {
        match s.nodes[id] {
            NodeState::Endpoint(n) => {
                let st = model::polled(
                    Step { core: n.core, actions: Seq::empty() },
                    since(s.net.now_ms, n.started_at_ms),
                );
                retried(carried_out(s, id, EndpointNodeState { core: st.core, ..n }, st.actions))
            },
            NodeState::Relay(_) => retried(s),
        }
    }
}

/// When an endpoint wants to be polled.
pub open spec fn deadline_of(s: EndpointState, elapsed_ms: u64) -> u64 {
    choose|at: u64|
        model::not_later(s, elapsed_ms, at) && #[trigger] model::wants_poll_at(s, elapsed_ms, at)
}

/// When a node wants to be polled, in virtual time.
pub open spec fn due_of(now_ms: u64, n: NodeState) -> Option<u64> {
    match n {
        NodeState::Endpoint(n) => {
            let deadline = deadline_of(n.core, since(now_ms, n.started_at_ms));
            if deadline == u64::MAX {
                None
            } else {
                Some(link::capped(deadline + n.started_at_ms))
            }
        },
        NodeState::Relay(_) => None,
    }
}

/// The node wants to be polled, and none before it.
pub open spec fn polls_first(s: ShellState, id: SimNodeId, due_ms: u64) -> bool {
    &&& s.nodes.contains_key(id)
    &&& due_of(s.net.now_ms, s.nodes[id]) == Some(due_ms)
    &&& forall|other: SimNodeId| #[trigger]
        s.nodes.contains_key(other) ==> match due_of(s.net.now_ms, s.nodes[other]) {
            Some(other_ms) => due_ms < other_ms || due_ms == other_ms && id <= other,
            None => true,
        }
}

/// The node that wants to be polled next, and when: among equals the first.
pub open spec fn next_poll(s: ShellState) -> Option<(SimNodeId, u64)> {
    if exists|id: SimNodeId, due_ms: u64| polls_first(s, id, due_ms) {
        Some(choose|id: SimNodeId, due_ms: u64| polls_first(s, id, due_ms))
    } else {
        None
    }
}

/// The packet that arrives next: among equals the first.
pub open spec fn first_packet(packets: Seq<PacketState>) -> int {
    choose|i: int| network::next_packet(packets, i)
}

/// What happens next, and whether anything did.
pub open spec fn round(s: ShellState) -> (ShellState, bool) {
    let ready = retried(s);
    let poll = next_poll(ready);
    let (polled, due_ms) = poll->0;
    let packets = ready.net.packets;
    let first = first_packet(packets);
    if ready.halted || packets.len() == 0 && poll is None {
        (ready, false)
    } else if poll is Some && (packets.len() == 0 || due_ms < packets[first].due_ms) {
        let now_ms = network::poll_time(ready.net.now_ms, due_ms);
        (
            node_polled(
                ShellState { net: NetworkState { now_ms, ..ready.net }, ..ready },
                polled,
            ),
            true,
        )
    } else {
        let packet = packets[first];
        (
            event_taken(
                ShellState { net: network::delivered(ready.net, first), ..ready },
                packet.to_node,
                EventState::TransportPacketReceived {
                    channel_id: packet.to_channel_id,
                    bytes: packet.bytes,
                },
            ),
            true,
        )
    }
}

/// Up to `steps` things have happened, one after the other.
pub open spec fn ran(s: ShellState, steps: nat) -> ShellState
    decreases steps,
{
    if steps == 0 || s.halted {
        s
    } else {
        let (t, go) = round(s);
        if go {
            ran(t, (steps - 1) as nat)
        } else {
            t
        }
    }
}

/// The node after a restart: the wall clock has gone on while it ran, the seed is the next
/// one, and everything else is forgotten.
pub open spec fn restarted(now_ms: u64, n: NodeState, m: NodeState) -> bool {
    match (n, m) {
        (NodeState::Endpoint(n), NodeState::Endpoint(m)) => {
            &&& m.config == (EndpointConfig {
                boot_time_ms: link::capped(n.config.boot_time_ms + (now_ms - n.started_at_ms)),
                random_seed: m.config.random_seed,
                ..n.config
            })
            &&& node::seed_value(m.config.random_seed@) == node::seed_value(
                n.config.random_seed@,
            ) + 1
            &&& m.core == driver::endpoint_init(m.config)
            &&& m.started_at_ms == now_ms
            &&& m.sessions == (SessionsState { sessions: Map::empty(), blocked: Map::empty() })
            &&& m.echo == n.echo
        },
        (NodeState::Relay(n), NodeState::Relay(m)) => {
            &&& m.config == (RelayConfig {
                boot_time_ms: link::capped(n.config.boot_time_ms + (now_ms - n.started_at_ms)),
                random_seed: m.config.random_seed,
                ..n.config
            })
            &&& node::seed_value(m.config.random_seed@) == node::seed_value(
                n.config.random_seed@,
            ) + 1
            &&& m.core == relay::relay_init(m.config)
            &&& m.started_at_ms == now_ms
        },
        _ => false,
    }
}

/// The node can be restarted: the time has not gone back behind its start, and there is a
/// next seed.
pub open spec fn restartable(now_ms: u64, n: NodeState) -> bool {
    let (started_at_ms, seed) = match n {
        NodeState::Endpoint(n) => (n.started_at_ms, n.config.random_seed@),
        NodeState::Relay(n) => (n.started_at_ms, n.config.random_seed@),
    };
    started_at_ms <= now_ms && exists|i: int| 0 <= i < 16 && #[trigger] seed[i] != 255
}

// ---------------------------------------------------------------------------
// The next poll, and the next packet
// ---------------------------------------------------------------------------

proof fn lemma_deadline(s: EndpointState, elapsed_ms: u64, at: u64)
    requires
        model::not_later(s, elapsed_ms, at),
        model::wants_poll_at(s, elapsed_ms, at),
    ensures
        deadline_of(s, elapsed_ms) == at,
{
    let other = deadline_of(s, elapsed_ms);
    assert(model::not_later(s, elapsed_ms, other) && model::wants_poll_at(s, elapsed_ms, other));
    lemma_not_later(s, elapsed_ms, at, other);
    lemma_not_later(s, elapsed_ms, other, at);
}

proof fn lemma_not_later(s: EndpointState, elapsed_ms: u64, a: u64, b: u64)
    requires
        model::not_later(s, elapsed_ms, a),
        model::wants_poll_at(s, elapsed_ms, b),
    ensures
        a <= b,
{
}

pub proof fn lemma_next_poll(s: ShellState, id: SimNodeId, due_ms: u64)
    requires
        polls_first(s, id, due_ms),
    ensures
        next_poll(s) == Some((id, due_ms)),
{
    let (other, other_ms) = choose|other: SimNodeId, other_ms: u64|
        polls_first(s, other, other_ms);
    assert(polls_first(s, other, other_ms));
    assert(s.nodes.contains_key(other));
    assert(s.nodes.contains_key(id));
}

pub proof fn lemma_first_packet(packets: Seq<PacketState>, i: int)
    requires
        network::next_packet(packets, i),
    ensures
        first_packet(packets) == i,
{
    let j = first_packet(packets);
    assert(network::next_packet(packets, j));
    if i < j {
        assert(packets[j].due_ms < packets[i].due_ms);
    } else if j < i {
        assert(packets[i].due_ms < packets[j].due_ms);
    }
}

// ---------------------------------------------------------------------------
// Shell
// ---------------------------------------------------------------------------

pub struct EndpointNode {
    pub core: EndpointCore,
    pub config: EndpointConfig,
    pub started_at_sim_ms: u64,
    pub sessions: NodeSessions,
    pub echo_exit: bool,
}

pub struct RelayNode {
    pub core: RelayCore,
    pub config: RelayConfig,
    pub started_at_sim_ms: u64,
}

pub enum SimNode {
    Endpoint(EndpointNode),
    Relay(RelayNode),
}

impl View for SimNode {
    type V = NodeState;

    open spec fn view(&self) -> NodeState {
        match self {
            SimNode::Endpoint(n) => NodeState::Endpoint(
                EndpointNodeState {
                    core: n.core@,
                    config: n.config,
                    started_at_ms: n.started_at_sim_ms,
                    sessions: n.sessions@,
                    echo: n.echo_exit,
                },
            ),
            SimNode::Relay(n) => NodeState::Relay(
                RelayNodeState {
                    core: n.core@,
                    config: n.config,
                    started_at_ms: n.started_at_sim_ms,
                },
            ),
        }
    }
}

impl SimNode {
    pub open spec fn wf(&self) -> bool {
        match self {
            SimNode::Endpoint(n) => n.core.wf() && driver::config_ok(n.config),
            SimNode::Relay(n) => n.core.wf(),
        }
    }
}

/// Endpoints and relays on a network.
pub struct TestShell {
    network: Network,
    nodes: BTreeMap<SimNodeId, SimNode>,
    halted: bool,
}

impl View for TestShell {
    type V = ShellState;

    closed spec fn view(&self) -> ShellState {
        ShellState {
            net: self.network@,
            nodes: self.nodes@.map_values(|n: SimNode| n@),
            halted: self.halted,
        }
    }
}

impl Default for TestShell {
    fn default() -> (shell: Self)
        ensures
            shell.wf(),
            shell@ == (ShellState {
                net: network::quiet(),
                nodes: Map::empty(),
                halted: false,
            }),
    {
        TestShell::new()
    }
}

/// Carries out the actions of a relay.
fn relay_actions(
    network: &mut Network,
    core: &mut RelayCore,
    id: SimNodeId,
    elapsed_ms: u64,
    actions: Vec<CoreAction>,
)
    requires
        old(network).wf(),
        old(core).wf(),
    ensures
        final(network).wf(),
        final(core).wf(),
        (final(network)@, final(core)@) == relayed(
            old(network)@,
            old(core)@,
            id,
            elapsed_ms,
            machine::action_states(actions@),
        ),
{
    let mut work: Vec<CoreAction> = actions;
    let ghost end = relayed(network@, core@, id, elapsed_ms, machine::action_states(work@));
    while work.len() > 0
        invariant
            network.wf(),
            core.wf(),
            end == relayed(
                network@,
                core@,
                id,
                elapsed_ms,
                machine::action_states(work@),
            ),
        decreases work@.len(),
    {
        let ghost left = machine::action_states(work@);
        let action: CoreAction = work.remove(0);
        assert(machine::action_states(work@) =~= left.drop_first());
        assert(action@ == left[0]);
        match action {
            CoreAction::SendTransportPacket { channel_id, bytes } => {
                match network.send(id, channel_id, bytes) {
                    SendOutcome::Queued => {},
                    SendOutcome::Lost => {},
                    SendOutcome::Failed { bytes } => {
                        let mut none: Vec<CoreAction> = Vec::new();
                        core.handle_event(
                            elapsed_ms,
                            CoreEvent::TransportPacketSendFailed { channel_id, bytes },
                            &mut none,
                        );
                    },
                }
            },
            CoreAction::WriteSession { bytes, .. } => {
                network.delivered_bytes(bytes.len());
            },
            _ => {},
        }
    }
}

impl TestShell {
    pub closed spec fn wf(&self) -> bool {
        &&& self.network.wf()
        &&& forall|id: SimNodeId| #[trigger]
            self.nodes@.contains_key(id) ==> self.nodes@[id].wf()
    }

    pub fn new() -> (shell: Self)
        ensures
            shell.wf(),
            shell@ == (ShellState {
                net: network::quiet(),
                nodes: Map::empty(),
                halted: false,
            }),
    {
        let shell = TestShell { network: Network::new(), nodes: BTreeMap::new(), halted: false };
        assert(shell@.nodes =~= Map::<SimNodeId, NodeState>::empty());
        shell
    }

    pub fn now_ms(&self) -> (now: u64)
        ensures
            now == self@.net.now_ms,
    {
        self.network.now_ms()
    }

    pub fn metrics(&self) -> (metrics: TestMetrics)
        ensures
            metrics == self@.net.metrics,
    {
        self.network.metrics()
    }

    /// How long a node has run; zero if there is none.
    pub fn elapsed(&self, node_id: SimNodeId) -> (elapsed: u64)
        ensures
            elapsed == if self@.nodes.contains_key(node_id) {
                since(self@.net.now_ms, started_at(self@.nodes[node_id]))
            } else {
                0
            },
    {
        match self.nodes.get(&node_id) {
            Some(SimNode::Endpoint(n)) => node::elapsed(
                self.network.now_ms(),
                n.started_at_sim_ms,
            ),
            Some(SimNode::Relay(n)) => node::elapsed(self.network.now_ms(), n.started_at_sim_ms),
            None => 0,
        }
    }

    pub fn node(&self, node_id: SimNodeId) -> (found: Option<&SimNode>)
        ensures
            match found {
                Some(n) => self@.nodes.contains_key(node_id) && n@ == self@.nodes[node_id],
                None => !self@.nodes.contains_key(node_id),
            },
    {
        self.nodes.get(&node_id)
    }

    /// Lets the virtual time pass without anything happening.
    pub fn advance_to(&mut self, now_ms: u64)
        requires
            old(self).wf(),
        ensures
            final(self).wf(),
            final(self)@ == (ShellState {
                net: NetworkState { now_ms, ..old(self)@.net },
                ..old(self)@
            }),
    {
        self.network.advance_to(now_ms);
    }

    /// Whether something has come up that a core and the shell do not expect of each other.
    /// It stays so from then on, and `run_until_idle` does nothing any more.
    pub fn is_halted(&self) -> (halted: bool)
        ensures
            halted == self@.halted,
    {
        self.halted
    }

    pub fn add_endpoint(&mut self, node_id: SimNodeId, config: EndpointConfig, echo_exit: bool)
        requires
            old(self).wf(),
            driver::config_ok(config),
        ensures
            final(self).wf(),
            final(self)@ == (ShellState {
                nodes: old(self)@.nodes.insert(
                    node_id,
                    NodeState::Endpoint(
                        EndpointNodeState {
                            core: driver::endpoint_init(config),
                            config,
                            started_at_ms: old(self)@.net.now_ms,
                            sessions: SessionsState {
                                sessions: Map::empty(),
                                blocked: Map::empty(),
                            },
                            echo: echo_exit,
                        },
                    ),
                ),
                ..old(self)@
            }),
    {
        let core = EndpointCore::new(setup::copy_endpoint_config(&config));
        let added = SimNode::Endpoint(
            EndpointNode {
                core,
                config,
                started_at_sim_ms: self.network.now_ms(),
                sessions: NodeSessions::new(),
                echo_exit,
            },
        );
        self.nodes.insert(node_id, added);
        assert(self@.nodes =~= old(self)@.nodes.insert(node_id, added@));
    }

    pub fn add_relay(&mut self, node_id: SimNodeId, config: RelayConfig)
        requires
            old(self).wf(),
        ensures
            final(self).wf(),
            final(self)@ == (ShellState {
                nodes: old(self)@.nodes.insert(
                    node_id,
                    NodeState::Relay(
                        RelayNodeState {
                            core: relay::relay_init(config),
                            config,
                            started_at_ms: old(self)@.net.now_ms,
                        },
                    ),
                ),
                ..old(self)@
            }),
    {
        let core = RelayCore::new(setup::copy_relay_config(&config));
        let added = SimNode::Relay(
            RelayNode { core, config, started_at_sim_ms: self.network.now_ms() },
        );
        self.nodes.insert(node_id, added);
        assert(self@.nodes =~= old(self)@.nodes.insert(node_id, added@));
    }

    /// Restarts a node, if there is one. Its cores and sessions start anew.
    pub fn restart_node(&mut self, node_id: SimNodeId)
        requires
            old(self).wf(),
            old(self)@.nodes.contains_key(node_id) ==> restartable(
                old(self)@.net.now_ms,
                old(self)@.nodes[node_id],
            ),
        ensures
            final(self).wf(),
            if old(self)@.nodes.contains_key(node_id) {
                &&& final(self)@.nodes.contains_key(node_id)
                &&& restarted(
                    old(self)@.net.now_ms,
                    old(self)@.nodes[node_id],
                    final(self)@.nodes[node_id],
                )
                &&& final(self)@ == (ShellState {
                    nodes: old(self)@.nodes.insert(node_id, final(self)@.nodes[node_id]),
                    ..old(self)@
                })
            } else {
                final(self)@ == old(self)@
            },
    {
        let now_ms: u64 = self.network.now_ms();
        let fresh: SimNode = match self.nodes.remove(&node_id) {
            None => {
                assert(self@.nodes =~= old(self)@.nodes);
                return ;
            },
            Some(SimNode::Endpoint(n)) => {
                let mut config: EndpointConfig = n.config;
                let started_at_ms: u64 = n.started_at_sim_ms;
                let boot_time_ms: u64 = config.boot_time_ms;
                let mut seed: [u8; 16] = config.random_seed;
                let boot: u64 = node::restarted(boot_time_ms, &mut seed, started_at_ms, now_ms);
                config.boot_time_ms = boot;
                config.random_seed = seed;
                let core = EndpointCore::new(setup::copy_endpoint_config(&config));
                SimNode::Endpoint(
                    EndpointNode {
                        core,
                        config,
                        started_at_sim_ms: now_ms,
                        sessions: NodeSessions::new(),
                        echo_exit: n.echo_exit,
                    },
                )
            },
            Some(SimNode::Relay(n)) => {
                let mut config: RelayConfig = n.config;
                let started_at_ms: u64 = n.started_at_sim_ms;
                let boot_time_ms: u64 = config.boot_time_ms;
                let mut seed: [u8; 16] = config.random_seed;
                let boot: u64 = node::restarted(boot_time_ms, &mut seed, started_at_ms, now_ms);
                config.boot_time_ms = boot;
                config.random_seed = seed;
                let core = RelayCore::new(setup::copy_relay_config(&config));
                SimNode::Relay(RelayNode { core, config, started_at_sim_ms: now_ms })
            },
        };
        self.nodes.insert(node_id, fresh);
        assert(self@.nodes =~= old(self)@.nodes.insert(node_id, fresh@));
    }

    pub fn add_link(&mut self, added: SimLink)
        requires
            old(self).wf(),
            link::loss_ok(added.loss),
        ensures
            final(self).wf(),
            final(self)@ == (ShellState {
                net: NetworkState {
                    links: old(self)@.net.links.push(added),
                    attempts: old(self)@.net.attempts.push(0),
                    ..old(self)@.net
                },
                ..old(self)@
            }),
    {
        self.network.add_link(added);
    }

    /// Carries out the actions of an endpoint, which is not among the nodes meanwhile.
    fn finish_endpoint(&mut self, node_id: SimNodeId, n: EndpointNode, actions: Vec<CoreAction>)
        requires
            old(self).wf(),
            SimNode::Endpoint(n).wf(),
        ensures
            final(self).wf(),
            final(self)@ == carried_out(
                old(self)@,
                node_id,
                SimNode::Endpoint(n)@->Endpoint_0,
                machine::action_states(actions@),
            ),
    {
        let place = Place {
            node: node_id,
            elapsed_ms: node::elapsed(self.network.now_ms(), n.started_at_sim_ms),
            echo: n.echo_exit,
        };
        let mut core: EndpointCore = n.core;
        let mut sessions: NodeSessions = n.sessions;
        let halted: bool = run::settle(
            place,
            &mut self.network,
            &mut core,
            &mut sessions,
            actions,
        );
        self.halted = self.halted || halted;
        let after = SimNode::Endpoint(
            EndpointNode {
                core,
                config: n.config,
                started_at_sim_ms: n.started_at_sim_ms,
                sessions,
                echo_exit: n.echo_exit,
            },
        );
        self.nodes.insert(node_id, after);
        assert(self@.nodes =~= old(self)@.nodes.insert(node_id, after@));
    }

    /// Opens a session at an endpoint.
    pub fn open_session(&mut self, node_id: SimNodeId) -> (conv_id: ConvId)
        requires
            old(self).wf(),
            is_endpoint(old(self)@, node_id),
        ensures
            final(self).wf(),
            (final(self)@, conv_id) == session_opened(old(self)@, node_id),
    {
        let ghost before = self@;
        match self.nodes.remove(&node_id) {
            Some(SimNode::Endpoint(n)) => {
                let mut n: EndpointNode = n;
                let elapsed_ms: u64 = node::elapsed(self.network.now_ms(), n.started_at_sim_ms);
                let mut actions: Vec<CoreAction> = Vec::new();
                assert(machine::action_states(actions@) =~= Seq::<ActionState>::empty());
                let result = n.core.handle_event(elapsed_ms, CoreEvent::SessionOpen, &mut actions);
                let conv_id: ConvId = match result {
                    CoreEventResult::SessionCreated { conv_id } => conv_id,
                    _ => 0,
                };
                n.sessions.open(conv_id);
                self.finish_endpoint(node_id, n, actions);
                proof {
                    assert(self@.nodes =~= before.nodes.insert(node_id, self@.nodes[node_id]));
                }
                conv_id
            },
            _ => 0,
        }
    }

    /// Writes the bytes to a session. Returns `true` when the write was taken whole by the
    /// core; if it was not, it waits.
    pub fn send_session_bytes(&mut self, node_id: SimNodeId, conv_id: ConvId, bytes: Vec<u8>) -> (
        taken: bool)
        requires
            old(self).wf(),
            is_endpoint(old(self)@, node_id),
        ensures
            final(self).wf(),
            (final(self)@, taken) == bytes_sent(old(self)@, node_id, conv_id, bytes@),
    {
        let ghost before = self@;
        match self.nodes.remove(&node_id) {
            Some(SimNode::Endpoint(n)) => {
                let mut n: EndpointNode = n;
                let place = Place {
                    node: node_id,
                    elapsed_ms: node::elapsed(self.network.now_ms(), n.started_at_sim_ms),
                    echo: n.echo_exit,
                };
                match run::write_bytes(place, &mut n.core, &mut n.sessions, conv_id, bytes) {
                    None => {
                        self.halted = true;
                        self.nodes.insert(node_id, SimNode::Endpoint(n));
                        assert(self@.nodes =~= before.nodes);
                        false
                    },
                    Some((taken, actions)) => {
                        self.finish_endpoint(node_id, n, actions);
                        proof {
                            assert(self@.nodes =~= before.nodes.insert(
                                node_id,
                                self@.nodes[node_id],
                            ));
                        }
                        taken
                    },
                }
            },
            _ => false,
        }
    }

    /// Closes a session.
    pub fn close_session(&mut self, node_id: SimNodeId, conv_id: ConvId, reason: CloseReason)
        requires
            old(self).wf(),
            old(self)@.nodes.contains_key(node_id) ==> old(self)@.nodes[node_id] is Endpoint,
        ensures
            final(self).wf(),
            final(self)@ == event_taken(
                old(self)@,
                node_id,
                EventState::SessionClose { conv_id, reason },
            ),
    {
        self.handle_event(node_id, CoreEvent::SessionClose { conv_id, reason });
    }

    /// Hands an event to a node, and carries out what it wants done.
    pub fn handle_event(&mut self, node_id: SimNodeId, event: CoreEvent)
        requires
            old(self).wf(),
            old(self)@.nodes.contains_key(node_id) && old(self)@.nodes[node_id] is Relay
                ==> relay::is_transport_event(event@),
        ensures
            final(self).wf(),
            final(self)@ == event_taken(old(self)@, node_id, event@),
    {
        let ghost before = self@;
        let mut actions: Vec<CoreAction> = Vec::new();
        assert(machine::action_states(actions@) =~= Seq::<ActionState>::empty());
        match self.nodes.remove(&node_id) {
            None => {
                assert(self@.nodes =~= before.nodes);
            },
            Some(SimNode::Endpoint(n)) => {
                let mut n: EndpointNode = n;
                let elapsed_ms: u64 = node::elapsed(self.network.now_ms(), n.started_at_sim_ms);
                match n.core.try_handle_event(elapsed_ms, event, &mut actions) {
                    None => {
                        self.halted = true;
                        self.nodes.insert(node_id, SimNode::Endpoint(n));
                        assert(self@.nodes =~= before.nodes);
                    },
                    Some(_) => {
                        self.finish_endpoint(node_id, n, actions);
                        proof {
                            assert(self@.nodes =~= before.nodes.insert(
                                node_id,
                                self@.nodes[node_id],
                            ));
                        }
                    },
                }
            },
            Some(SimNode::Relay(n)) => {
                let mut n: RelayNode = n;
                let elapsed_ms: u64 = node::elapsed(self.network.now_ms(), n.started_at_sim_ms);
                n.core.handle_event(elapsed_ms, event, &mut actions);
                relay_actions(&mut self.network, &mut n.core, node_id, elapsed_ms, actions);
                let after = SimNode::Relay(n);
                self.nodes.insert(node_id, after);
                assert(self@.nodes =~= before.nodes.insert(node_id, after@));
            },
        }
    }

    pub fn has_session(&self, node_id: SimNodeId, conv_id: ConvId) -> (has: bool)
        ensures
            has == (is_endpoint(self@, node_id)
                && self@.nodes[node_id]->Endpoint_0.sessions.sessions.contains_key(conv_id)),
    {
        match self.nodes.get(&node_id) {
            Some(SimNode::Endpoint(n)) => n.sessions.has_session(conv_id),
            _ => false,
        }
    }

    /// How many sessions the core of a node has.
    pub fn active_sessions(&self, node_id: SimNodeId) -> (count: usize)
        ensures
            count == if is_endpoint(self@, node_id) {
                self@.nodes[node_id]->Endpoint_0.core.sessions.len()
            } else {
                0
            },
    {
        match self.nodes.get(&node_id) {
            Some(SimNode::Endpoint(n)) => n.core.metrics().active_sessions,
            _ => 0,
        }
    }

    /// Drops the packets that are on their way from a channel, and says how many.
    pub fn drop_queued_from(&mut self, from_node: SimNodeId, channel_id: ChannelId) -> (dropped:
        usize)
        requires
            old(self).wf(),
        ensures
            final(self).wf(),
            dropped == old(self)@.net.packets.len() - final(self)@.net.packets.len(),
            final(self)@ == (ShellState {
                net: NetworkState {
                    packets: network::without_channel(
                        old(self)@.net.packets,
                        from_node,
                        channel_id,
                    ),
                    metrics: TestMetrics {
                        dropped_packets: network::more(
                            old(self)@.net.metrics.dropped_packets,
                            dropped as int,
                        ),
                        ..old(self)@.net.metrics
                    },
                    ..old(self)@.net
                },
                ..old(self)@
            }),
    {
        self.network.drop_queued_from(from_node, channel_id)
    }

    /// What a session has received.
    pub fn session_bytes(&self, node_id: SimNodeId, conv_id: ConvId) -> (bytes: Option<&Vec<u8>>)
        ensures
            match bytes {
                Some(bytes) => {
                    &&& is_endpoint(self@, node_id)
                    &&& self@.nodes[node_id]->Endpoint_0.sessions.sessions.contains_key(conv_id)
                    &&& bytes@ == self@.nodes[node_id]->Endpoint_0.sessions.sessions[conv_id]
                },
                None => !(is_endpoint(self@, node_id)
                    && self@.nodes[node_id]->Endpoint_0.sessions.sessions.contains_key(conv_id)),
            },
    {
        match self.nodes.get(&node_id) {
            Some(SimNode::Endpoint(n)) => n.sessions.session_bytes(conv_id),
            _ => None,
        }
    }

    /// How many packets have arrived from a channel.
    pub fn delivered_on(&self, node_id: SimNodeId, channel_id: ChannelId) -> (count: u64)
        ensures
            count == if self@.net.delivered.contains_key(network::key(node_id, channel_id)) {
                self@.net.delivered[network::key(node_id, channel_id)]
            } else {
                0
            },
    {
        self.network.delivered_on(node_id, channel_id)
    }

    /// How often a node has tried to send on a channel.
    pub fn attempted_on(&self, node_id: SimNodeId, channel_id: ChannelId) -> (count: u64)
        requires
            self.wf(),
        ensures
            count == match network::link_from(self@.net.links, node_id, channel_id) {
                Some(i) => self@.net.attempts[i],
                None => 0,
            },
    {
        self.network.attempted_on(node_id, channel_id)
    }

    /// Sends the last packet of a channel again, at once. Says whether there was one.
    pub fn replay_last_packet(&mut self, from_node: SimNodeId, channel_id: ChannelId) -> (replayed:
        bool)
        requires
            old(self).wf(),
        ensures
            final(self).wf(),
            replayed == old(self)@.net.captured.contains_key(network::key(from_node, channel_id)),
            final(self)@ == if replayed {
                ShellState {
                    net: NetworkState {
                        packets: old(self)@.net.packets.push(
                            PacketState {
                                due_ms: old(self)@.net.now_ms,
                                ..old(self)@.net.captured[network::key(from_node, channel_id)]
                            },
                        ),
                        ..old(self)@.net
                    },
                    ..old(self)@
                }
            } else {
                old(self)@
            },
    {
        self.network.replay_last_packet(from_node, channel_id)
    }

    fn retry_node(&mut self, node_id: SimNodeId)
        requires
            old(self).wf(),
        ensures
            final(self).wf(),
            final(self)@ == node_retried(old(self)@, node_id),
            final(self)@.nodes.dom() == old(self)@.nodes.dom(),
    {
        let ghost before = self@;
        let mut writes: Vec<(ConvId, Vec<u8>)> = match self.nodes.get(&node_id) {
            Some(SimNode::Endpoint(n)) => n.sessions.blocked(),
            _ => {
                return ;
            },
        };
        let ghost all = waiting(before.nodes[node_id]->Endpoint_0.sessions);
        let ghost end = node_retried(before, node_id);
        assert(all =~= write_states(writes@));
        while writes.len() > 0 && !self.halted
            invariant
                self.wf(),
                is_endpoint(self@, node_id),
                self@.nodes.dom() == before.nodes.dom(),
                end == writes_retried(self@, node_id, write_states(writes@)),
            decreases writes@.len(),
        {
            let ghost left = write_states(writes@);
            let (conv_id, bytes) = writes.remove(0);
            assert(write_states(writes@) =~= left.drop_first());
            assert(left[0] == (conv_id, bytes@));
            self.send_session_bytes(node_id, conv_id, bytes);
            assert(self@.nodes.dom() =~= before.nodes.dom());
        }
    }

    /// Tries the writes again that wait.
    fn retry_blocked_writes(&mut self)
        requires
            old(self).wf(),
        ensures
            final(self).wf(),
            final(self)@ == retried(old(self)@),
    {
        let ghost before = self@;
        let ids: Vec<SimNodeId> = ordered::sorted_keys(&self.nodes);
        assert(self@.nodes.dom() =~= self.nodes@.dom());
        let mut i: usize = 0;
        assert(ids@.skip(0) =~= ids@);
        while i < ids.len() && !self.halted
            invariant
                self.wf(),
                i <= ids@.len(),
                retried(before) == nodes_retried(self@, ids@.skip(i as int)),
            decreases ids@.len() - i,
        {
            assert(ids@.skip(i as int).drop_first() =~= ids@.skip(i + 1));
            self.retry_node(ids[i]);
            i = i + 1;
        }
    }

    /// Which node is polled next, and when.
    fn next_poll_deadline(&self) -> (poll: Option<(SimNodeId, u64)>)
        requires
            self.wf(),
        ensures
            poll == next_poll(self@),
    {
        let now_ms: u64 = self.network.now_ms();
        let ids: Vec<SimNodeId> = ordered::sorted_keys(&self.nodes);
        assert(self@.nodes.dom() =~= self.nodes@.dom());
        let mut best: Option<(SimNodeId, u64)> = None;
        let mut i: usize = 0;
        while i < ids.len()
            invariant
                self.wf(),
                now_ms == self@.net.now_ms,
                ordered::is_ascending(ids@, self.nodes@.dom()),
                self@.nodes.dom() == self.nodes@.dom(),
                i <= ids@.len(),
                match best {
                    Some((id, due_ms)) => {
                        &&& self@.nodes.contains_key(id)
                        &&& due_of(now_ms, self@.nodes[id]) == Some(due_ms)
                        &&& forall|j: int|
                            0 <= j < i ==> match due_of(
                                now_ms,
                                self@.nodes[#[trigger] ids@[j]],
                            ) {
                                Some(other_ms) => due_ms < other_ms || due_ms == other_ms && id
                                    <= ids@[j],
                                None => true,
                            }
                        &&& forall|j: int| i <= j < ids@.len() ==> id < #[trigger] ids@[j]
                    },
                    None => forall|j: int|
                        0 <= j < i ==> due_of(now_ms, self@.nodes[#[trigger] ids@[j]]) is None,
                },
            decreases ids@.len() - i,
        {
            let id: SimNodeId = ids[i];
            assert(ids@.contains(id));
            assert(self.nodes@.dom().contains(id));
            let due: Option<u64> = match self.nodes.get(&id) {
                Some(SimNode::Endpoint(n)) => {
                    assert(self.nodes@[id].wf());
                    let elapsed_ms: u64 = node::elapsed(now_ms, n.started_at_sim_ms);
                    let deadline: u64 = n.core.next_deadline(elapsed_ms);
                    proof {
                        lemma_deadline(n.core@, elapsed_ms, deadline);
                    }
                    if deadline == u64::MAX {
                        None
                    } else {
                        Some(deadline.saturating_add(n.started_at_sim_ms))
                    }
                },
                _ => None,
            };
            assert(due == due_of(now_ms, self@.nodes[id]));
            if let Some(due_ms) = due {
                match best {
                    Some((_, best_ms)) => {
                        if due_ms < best_ms {
                            best = Some((id, due_ms));
                        }
                    },
                    None => {
                        best = Some((id, due_ms));
                    },
                }
            }
            i = i + 1;
        }
        proof {
            assert forall|other: SimNodeId| #[trigger]
                self@.nodes.contains_key(other) implies exists|j: int|
                0 <= j < ids@.len() && #[trigger] ids@[j] == other by {
                assert(self.nodes@.dom().contains(other));
                assert(ids@.contains(other));
            }
            if let Some((id, due_ms)) = best {
                assert(polls_first(self@, id, due_ms));
                lemma_next_poll(self@, id, due_ms);
            } else {
                assert forall|id: SimNodeId, due_ms: u64| !polls_first(self@, id, due_ms) by {}
            }
        }
        best
    }

    /// Lets time pass for a node.
    fn poll_node(&mut self, node_id: SimNodeId)
        requires
            old(self).wf(),
        ensures
            final(self).wf(),
            final(self)@ == node_polled(old(self)@, node_id),
    {
        let ghost before = self@;
        let mut actions: Vec<CoreAction> = Vec::new();
        assert(machine::action_states(actions@) =~= Seq::<ActionState>::empty());
        match self.nodes.remove(&node_id) {
            None => {
                assert(self@.nodes =~= before.nodes);
                return ;
            },
            Some(SimNode::Endpoint(n)) => {
                let mut n: EndpointNode = n;
                let elapsed_ms: u64 = node::elapsed(self.network.now_ms(), n.started_at_sim_ms);
                n.core.poll(elapsed_ms, &mut actions);
                self.finish_endpoint(node_id, n, actions);
                proof {
                    assert(self@.nodes =~= before.nodes.insert(node_id, self@.nodes[node_id]));
                }
            },
            Some(SimNode::Relay(n)) => {
                let mut n: RelayNode = n;
                let elapsed_ms: u64 = node::elapsed(self.network.now_ms(), n.started_at_sim_ms);
                n.core.poll(elapsed_ms, &mut actions);
                self.nodes.insert(node_id, SimNode::Relay(n));
                assert(self@.nodes =~= before.nodes);
            },
        }
        self.retry_blocked_writes();
    }

    /// Lets things happen, one after the other: up to `max_steps`, or until nothing is left.
    pub fn run_until_idle(&mut self, max_steps: usize)
        requires
            old(self).wf(),
        ensures
            final(self).wf(),
            final(self)@ == ran(old(self)@, max_steps as nat),
    {
        let ghost before = self@;
        let mut left: usize = max_steps;
        while left > 0 && !self.halted
            invariant
                self.wf(),
                before == old(self)@,
                ran(before, max_steps as nat) == ran(self@, left as nat),
            decreases left,
        {
            self.retry_blocked_writes();
            if self.halted {
                return ;
            }
            let ghost ready = self@;
            let poll: Option<(SimNodeId, u64)> = self.next_poll_deadline();
            match self.network.next_step(poll) {
                SimStep::Idle => {
                    assert(self@ =~= ready);
                    return ;
                },
                SimStep::Poll { node } => {
                    proof {
                        if ready.net.packets.len() > 0 {
                            let i = lemma_some_packet(ready.net.packets);
                            lemma_first_packet(ready.net.packets, i);
                        }
                    }
                    self.poll_node(node);
                },
                SimStep::Deliver { packet } => {
                    proof {
                        let i = choose|i: int| #[trigger]
                            network::next_packet(ready.net.packets, i) && packet@
                                == ready.net.packets[i] && self.network@ == network::delivered(
                                ready.net,
                                i,
                            );
                        lemma_first_packet(ready.net.packets, i);
                    }
                    self.handle_event(
                        packet.to_node,
                        CoreEvent::TransportPacketReceived {
                            channel_id: packet.to_channel_id,
                            bytes: packet.bytes,
                        },
                    );
                },
            }
            left = left - 1;
        }
    }
}

/// The contents of a list of writes.
spec fn write_states(writes: Seq<(ConvId, Vec<u8>)>) -> Seq<(ConvId, Seq<u8>)> {
    Seq::new(writes.len(), |i: int| (writes[i].0, writes[i].1@))
}

/// Among packets there is one that arrives next.
pub proof fn lemma_some_packet(packets: Seq<PacketState>) -> (i: int)
    requires
        packets.len() > 0,
    ensures
        network::next_packet(packets, i),
    decreases packets.len(),
{
    if packets.len() == 1 {
        0
    } else {
        let front = packets.drop_last();
        let i = lemma_some_packet(front);
        let last = packets.len() - 1;
        assert forall|j: int| 0 <= j < last implies packets[j] == #[trigger] front[j] by {}
        if packets[last].due_ms < packets[i].due_ms {
            assert forall|j: int| 0 <= j < packets.len() implies packets[last].due_ms
                <= #[trigger] packets[j].due_ms by {
                if j < last {
                    assert(front[i].due_ms <= front[j].due_ms);
                }
            }
            assert forall|j: int| 0 <= j < last implies packets[last].due_ms
                < #[trigger] packets[j].due_ms by {
                assert(front[i].due_ms <= front[j].due_ms);
            }
            last
        } else {
            assert forall|j: int| 0 <= j < packets.len() implies packets[i].due_ms
                <= #[trigger] packets[j].due_ms by {
                if j < last {
                    assert(front[i].due_ms <= front[j].due_ms);
                }
            }
            assert forall|j: int| 0 <= j < i implies packets[i].due_ms
                < #[trigger] packets[j].due_ms by {
                assert(front[i].due_ms < front[j].due_ms);
            }
            i
        }
    }
}

// ---------------------------------------------------------------------------
// Laws
// ---------------------------------------------------------------------------

/// What an event does at one node leaves all other nodes as they are, and takes no time.
pub proof fn law_nodes_act_alone(
    s: ShellState,
    id: SimNodeId,
    event: EventState,
    other: SimNodeId,
)
    requires
        other != id,
    ensures
        ({
            let t = event_taken(s, id, event);
            &&& t.nodes.contains_key(other) == s.nodes.contains_key(other)
            &&& s.nodes.contains_key(other) ==> t.nodes[other] == s.nodes[other]
            &&& t.net.now_ms == s.net.now_ms
            &&& t.net.links == s.net.links
        }),
{
    if s.nodes.contains_key(id) {
        match s.nodes[id] {
            NodeState::Endpoint(n) => {
                let elapsed_ms = since(s.net.now_ms, n.started_at_ms);
                let st = model::event_handled(
                    Step { core: n.core, actions: Seq::empty() },
                    elapsed_ms,
                    event,
                ).0;
                run::law_actions_take_no_time(
                    place_of(s.net.now_ms, id, n),
                    Run {
                        net: s.net,
                        core: st.core,
                        sessions: n.sessions,
                        work: st.actions,
                        halted: false,
                    },
                );
            },
            NodeState::Relay(n) => {
                let elapsed_ms = since(s.net.now_ms, n.started_at_ms);
                let (core, actions) = relay::relay_step(n.core, elapsed_ms, event);
                lemma_relayed(s.net, core, id, elapsed_ms, actions);
            },
        }
    }
}

proof fn lemma_relayed(
    net: NetworkState,
    core: RelayState,
    id: SimNodeId,
    elapsed_ms: u64,
    actions: Seq<ActionState>,
)
    ensures
        ({
            let end = relayed(net, core, id, elapsed_ms, actions).0;
            end.now_ms == net.now_ms && end.links == net.links
        }),
    decreases actions.len(),
{
    if actions.len() > 0 {
        let (next_net, next_core) = match actions[0] {
            ActionState::SendTransportPacket { channel_id, bytes } => {
                let (sent_net, outcome) = network::sent(net, id, channel_id, bytes);
                let event = EventState::TransportPacketSendFailed { channel_id, bytes };
                (
                    sent_net,
                    if outcome is None {
                        relay::relay_step(core, elapsed_ms, event).0
                    } else {
                        core
                    },
                )
            },
            ActionState::WriteSession { bytes, .. } => (network::arrived(net, bytes.len()), core),
            _ => (net, core),
        };
        lemma_relayed(next_net, next_core, id, elapsed_ms, actions.drop_first());
    }
}

} // verus!
