//! The endpoint core.
use std::collections::BTreeMap;

use vstd::prelude::*;

use crate::crypto;
use crate::endpoint::laws;
use crate::endpoint::model;
use crate::endpoint::model::{EndpointState, Step, SEQUENCE_LIMIT, SEQUENCE_SOFT_CAP};
use crate::endpoint::session;
use crate::endpoint::session::{EndpointSession, SessionPhase, SessionState};
use crate::kcp;
use crate::kcp::{get_conv, KcpParams, KCP_OVERHEAD};
use crate::limits;
use crate::limits::{
    ENDPOINT_MESSAGE_OVERHEAD, SESSION_TOMBSTONE_MS, TRANSPORT_PACKET_OVERHEAD,
};
use crate::machine;
use crate::machine::{
    bump, ChannelId, CloseReason, ConvId, CoreAction, CoreEvent, CoreEventResult, CoreMetrics,
    EventState,
};
use crate::octets;
use crate::ordered;
use crate::packet;
use crate::random;
use crate::random::RandomStream;
use crate::routing;
use crate::routing::{RouteConfig, RouteGraph, RoutePlanner};
use crate::sequence;
use crate::sequence::SequenceFilter;
use crate::wire;
use crate::wire::{
    EndpointMessage, Envelope, EnvelopeStamp, SessionMessage, CHANNEL_ID_SIZE,
    ENVELOPE_FIXED_OVERHEAD,
};

verus! {

broadcast use {vstd::std_specs::btree::group_btree_axioms, vstd::laws_cmp::group_laws_cmp};

#[derive(Debug, Clone, Copy, PartialEq, Eq, Structural)]
pub struct KcpConfig {
    pub send_window: u16,
    pub receive_window: u16,
    pub time_scale: u8,
    /// Fast-retransmit threshold; `0` disables fast retransmit.
    pub fast_resend: u32,
}

impl Default for KcpConfig {
    fn default() -> (config: Self)
        ensures
            config == (KcpConfig {
                send_window: 128,
                receive_window: 128,
                time_scale: 10,
                fast_resend: 32,
            }),
    {
        Self { send_window: 128, receive_window: 128, time_scale: 10, fast_resend: 32 }
    }
}

#[derive(Clone, PartialEq, Eq)]
pub struct EndpointConfig {
    pub envelope_key: [u8; 16],
    pub message_key: [u8; 16],
    pub random_seed: [u8; 16],
    pub boot_time_ms: u64,
    pub kcp: KcpConfig,
    pub route: RouteConfig,
    pub local_channels: Vec<ChannelId>,
    pub padding_reserve: u8,
    pub keepalive_interval_ms: u32,
}

/// The configuration with defaults in place of zeros.
pub open spec fn with_defaults(config: KcpConfig) -> KcpConfig {
    KcpConfig {
        send_window: if config.send_window == 0 {
            128
        } else {
            config.send_window
        },
        receive_window: if config.receive_window == 0 {
            128
        } else {
            config.receive_window
        },
        time_scale: if config.time_scale == 0 {
            10
        } else {
            config.time_scale
        },
        ..config
    }
}

/// The number of edges of the longest route.
pub open spec fn longest_route(config: EndpointConfig) -> nat {
    model::longest(model::ends_of_config(config.route.graph@), 0)
}

/// The bytes around an endpoint message that are set aside when routes are planned.
pub open spec fn scheduled_overhead(config: EndpointConfig) -> int {
    model::packet_overhead(longest_route(config), config.padding_reserve)
}

/// The KCP parameters of all sessions.
pub open spec fn session_params(config: EndpointConfig) -> KcpParams {
    let kcp = with_defaults(config.kcp);
    KcpParams {
        mtu: (limits::transport_mtu(config.route.min_mtu) - scheduled_overhead(config)
            - ENDPOINT_MESSAGE_OVERHEAD) as usize,
        send_window: kcp.send_window,
        receive_window: kcp.receive_window,
        nodelay: true,
        fast_resend: if kcp.fast_resend == 0 {
            None
        } else {
            Some(kcp.fast_resend)
        },
        congestion_control: false,
        time_scale: kcp.time_scale,
    }
}

/// The contract on configurations: an ordered graph whose routes fit a route plan, room for
/// a KCP segment and one byte of padding in every packet, room for a close message in the
/// receive window, and a positive feedback interval.
pub open spec fn config_ok(config: EndpointConfig) -> bool {
    &&& routing::graph_ordered(config.route.graph@)
    &&& config.route.graph@.len() >= 2
    &&& 1 <= longest_route(config) <= 64
    &&& config.padding_reserve >= 1
    &&& config.route.feedback_interval_ms > 0
    &&& scheduled_overhead(config) + ENDPOINT_MESSAGE_OVERHEAD + KCP_OVERHEAD
        < limits::transport_mtu(config.route.min_mtu)
    &&& session::message_segments(session_params(config), 2) < with_defaults(
        config.kcp,
    ).receive_window
}

pub open spec fn params_of(config: EndpointConfig) -> model::EndpointParams {
    model::EndpointParams {
        envelope_key: config.envelope_key@,
        message_key: config.message_key@,
        boot_time_ms: config.boot_time_ms,
        keepalive_interval_ms: config.keepalive_interval_ms,
        feedback_interval_ms: config.route.feedback_interval_ms,
        feedback_timeout_ms: config.route.feedback_timeout_ms,
        mtu: limits::transport_mtu(config.route.min_mtu),
        kcp: session_params(config),
        scheduled_packet_overhead: scheduled_overhead(config) as usize,
        close_deadline_ms: (18_000 * with_defaults(config.kcp).time_scale) as u64,
    }
}

/// A new endpoint.
pub open spec fn endpoint_init(config: EndpointConfig) -> EndpointState {
    let stream = random::seeded(config.random_seed@);
    EndpointState {
        params: params_of(config),
        planner: routing::new_graph(config.route.graph@),
        random: random::skip_bytes(random::skip_bytes(stream, 8), 8),
        filter: Map::empty(),
        seq_id: random::next_u64(random::skip_bytes(stream, 8)) % SEQUENCE_LIMIT,
        next_seq_no: 0,
        next_feedback_at: 0,
        outstanding: Map::empty(),
        next_keepalive_at: config.keepalive_interval_ms as u64,
        sessions: Map::empty(),
        tombstones: Map::empty(),
        next_conv_id: random::next_u64(stream),
        metrics: machine::no_metrics(),
    }
}

pub struct FeedbackSample {
    pub route_plan: Vec<ChannelId>,
    pub sent_at: u64,
    pub deadline: u64,
}

impl View for FeedbackSample {
    type V = model::SampleState;

    open spec fn view(&self) -> model::SampleState {
        model::SampleState {
            route_plan: self.route_plan@,
            sent_at: self.sent_at,
            deadline: self.deadline,
        }
    }
}

pub struct EndpointCore {
    config: EndpointConfig,
    kcp_params: KcpParams,
    scheduled_packet_overhead: usize,
    close_deadline_ms: u64,
    route_planner: RoutePlanner,
    random: RandomStream,
    sequence_filter: SequenceFilter,
    seq_id: u64,
    next_seq_no: u64,
    next_feedback_at: u64,
    outstanding: BTreeMap<(u64, u64), FeedbackSample>,
    next_keepalive_at: u64,
    sessions: BTreeMap<ConvId, EndpointSession>,
    tombstones: BTreeMap<ConvId, u64>,
    next_conv_id: ConvId,
    metrics: CoreMetrics,
}

impl View for EndpointCore {
    type V = EndpointState;

    closed spec fn view(&self) -> EndpointState {
        EndpointState {
            params: model::EndpointParams {
                envelope_key: self.config.envelope_key@,
                message_key: self.config.message_key@,
                boot_time_ms: self.config.boot_time_ms,
                keepalive_interval_ms: self.config.keepalive_interval_ms,
                feedback_interval_ms: self.config.route.feedback_interval_ms,
                feedback_timeout_ms: self.config.route.feedback_timeout_ms,
                mtu: limits::transport_mtu(self.config.route.min_mtu),
                kcp: self.kcp_params,
                scheduled_packet_overhead: self.scheduled_packet_overhead,
                close_deadline_ms: self.close_deadline_ms,
            },
            planner: self.route_planner@,
            random: self.random@,
            filter: self.sequence_filter@,
            seq_id: self.seq_id,
            next_seq_no: self.next_seq_no,
            next_feedback_at: self.next_feedback_at,
            outstanding: Map::new(
                |id: (u64, u64)| self.outstanding@.contains_key(id),
                |id: (u64, u64)| self.outstanding@[id]@,
            ),
            next_keepalive_at: self.next_keepalive_at,
            sessions: Map::new(
                |conv: u64| self.sessions@.contains_key(conv),
                |conv: u64| self.sessions@[conv]@,
            ),
            tombstones: self.tombstones@,
            next_conv_id: self.next_conv_id,
            metrics: self.metrics,
        }
    }
}

/// The endpoint and its actions so far.
pub open spec fn step_of(core: EndpointCore, actions: Seq<CoreAction>) -> Step {
    Step { core: core@, actions: machine::action_states(actions) }
}

/// The number of edges of the longest route of a graph.
fn longest_way(graph: &RouteGraph) -> (hops: usize)
    requires
        routing::graph_ordered(graph@),
    ensures
        hops == model::longest(model::ends_of_config(graph@), 0),
{
    let n: usize = graph.nodes.len();
    let ghost ends = model::ends_of_config(graph@);
    proof {
        assert forall|u: int, j: int| 0 <= u < ends.len() && 0 <= j < ends[u].len() implies u
            < #[trigger] ends[u][j] < ends.len() by {
            assert(u < graph@[u][j].next < graph@.len());
        }
    }
    // the lengths from the last node to the first one
    let mut back: Vec<usize> = Vec::new();
    let mut left: usize = n;
    while left > 0
        invariant
            n == graph.nodes@.len(),
            ends == model::ends_of_config(graph@),
            routing::graph_ordered(graph@),
            forall|u: int, j: int|
                0 <= u < ends.len() && 0 <= j < ends[u].len() ==> u < #[trigger] ends[u][j]
                    < ends.len(),
            left <= n,
            back@.len() == n - left,
            forall|i: int|
                0 <= i < back@.len() ==> #[trigger] back@[i] == model::longest(ends, n - 1 - i),
        decreases left,
    {
        let node: usize = left - 1;
        let count: usize = graph.nodes[node].edges.len();
        let mut best: usize = 0;
        let mut k: usize = 0;
        while k < count
            invariant
                n == graph.nodes@.len(),
                ends == model::ends_of_config(graph@),
                routing::graph_ordered(graph@),
                forall|u: int, j: int|
                    0 <= u < ends.len() && 0 <= j < ends[u].len() ==> u < #[trigger] ends[u][j]
                        < ends.len(),
                node < n,
                count == graph.nodes@[node as int].edges@.len() == ends[node as int].len(),
                k <= count,
                back@.len() == n - 1 - node,
                forall|i: int|
                    0 <= i < back@.len() ==> #[trigger] back@[i] == model::longest(
                        ends,
                        n - 1 - i,
                    ),
                best == model::longest_over(ends, node as int, k as nat),
            decreases count - k,
        {
            let next: usize = graph.nodes[node].edges[k].next as usize;
            proof {
                assert(graph@[node as int][k as int].next == next);
                assert(ends[node as int][k as int] == next);
                assert(node < next < n);
                laws::lemma_longest_bound(ends, next as int, ends[next as int].len());
            }
            let way: usize = back[n - 1 - next] + 1;
            if way > best {
                best = way;
            }
            k = k + 1;
        }
        back.push(best);
        left = left - 1;
    }
    back[n - 1]
}

fn scheduled_packet_overhead(config: &EndpointConfig) -> (overhead: usize)
    requires
        routing::graph_ordered(config.route.graph@),
        1 <= longest_route(*config) <= 64,
    ensures
        overhead == scheduled_overhead(*config),
{
    TRANSPORT_PACKET_OVERHEAD + ENVELOPE_FIXED_OVERHEAD + config.padding_reserve as usize + (
    longest_way(&config.route.graph) - 1) * CHANNEL_ID_SIZE
}

/// Whether an endpoint can be made with a configuration.
pub fn is_usable(config: &EndpointConfig) -> (yes: bool)
    ensures
        yes == config_ok(*config),
{
    if !routing::is_ordered(&config.route.graph) || config.route.graph.nodes.len() < 2 {
        return false;
    }
    let hops: usize = longest_way(&config.route.graph);
    if hops < 1 || hops > 64 || config.padding_reserve < 1 || config.route.feedback_interval_ms
        == 0 {
        return false;
    }
    let overhead: usize = scheduled_packet_overhead(config);
    let mtu: usize = limits::effective_transport_mtu(config.route.min_mtu);
    if overhead + ENDPOINT_MESSAGE_OVERHEAD + KCP_OVERHEAD >= mtu {
        return false;
    }
    let receive_window: u16 = if config.kcp.receive_window == 0 {
        128
    } else {
        config.kcp.receive_window
    };
    let mss: usize = mtu - overhead - ENDPOINT_MESSAGE_OVERHEAD - KCP_OVERHEAD;
    let segments: usize = if mss >= 2 {
        1
    } else {
        2
    };
    proof {
        let m = mss as int;
        assert((2 - 1) / m + 1 == segments) by (nonlinear_arith)
            requires
                m >= 1,
                segments == if m >= 2 {
                    1int
                } else {
                    2
                },
        ;
        assert(session_params(*config).mtu - 28 == m);
    }
    segments < receive_window as usize
}

fn later(a: u64, b: u64) -> (c: u64)
    ensures
        c == model::later(a, b as int),
{
    a.saturating_add(b)
}

impl EndpointCore {
    /// No event leaves the endpoint in a state without these properties.
    pub closed spec fn wf(&self) -> bool {
        &&& model::endpoint_ok(self@)
        &&& self.sequence_filter.wf()
        &&& self.route_planner.wf()
    }

    /// What every event keeps, of the state.
    pub proof fn lemma_ok(&self)
        requires
            self.wf(),
        ensures
            model::endpoint_ok(self@),
    {
    }

    pub fn new(config: EndpointConfig) -> (core: Self)
        requires
            config_ok(config),
        ensures
            core.wf(),
            core@ == endpoint_init(config),
    {
        let scheduled_packet_overhead: usize = scheduled_packet_overhead(&config);
        let defaults = KcpConfig::default();
        let send_window: u16 = if config.kcp.send_window == 0 {
            defaults.send_window
        } else {
            config.kcp.send_window
        };
        let receive_window: u16 = if config.kcp.receive_window == 0 {
            defaults.receive_window
        } else {
            config.kcp.receive_window
        };
        let time_scale: u8 = if config.kcp.time_scale == 0 {
            defaults.time_scale
        } else {
            config.kcp.time_scale
        };
        let mtu: usize = limits::effective_transport_mtu(config.route.min_mtu)
            - scheduled_packet_overhead - ENDPOINT_MESSAGE_OVERHEAD;
        let kcp_params = KcpParams {
            mtu,
            send_window,
            receive_window,
            nodelay: true,
            fast_resend: if config.kcp.fast_resend == 0 {
                None
            } else {
                Some(config.kcp.fast_resend)
            },
            congestion_control: false,
            time_scale,
        };
        let close_deadline_ms: u64 = 3 * 6_000 * time_scale as u64;
        let route_planner = RoutePlanner::new(&config.route);
        let mut random = RandomStream::new(config.random_seed);
        let next_conv_id: u64 = random.u64();
        let seq_id: u64 = random.u64() % SEQUENCE_LIMIT;
        let next_keepalive_at: u64 = config.keepalive_interval_ms as u64;
        let core = Self {
            random,
            next_conv_id,
            config,
            kcp_params,
            scheduled_packet_overhead,
            close_deadline_ms,
            route_planner,
            sequence_filter: SequenceFilter::default(),
            seq_id,
            next_seq_no: 0,
            next_feedback_at: 0,
            outstanding: BTreeMap::new(),
            next_keepalive_at,
            sessions: BTreeMap::new(),
            tombstones: BTreeMap::new(),
            metrics: CoreMetrics::default(),
        };
        proof {
            assert(core@.outstanding =~= Map::empty());
            assert(core@.sessions =~= Map::empty());
            assert(core@ =~= endpoint_init(config));
            let g = config.route.graph@;
            assert(model::ends_of_plan(core@.planner) =~= model::ends_of_config(g)) by {
                assert forall|v: int| 0 <= v < g.len() implies #[trigger] model::ends_of_plan(
                    core@.planner,
                )[v] == model::ends_of_config(g)[v] by {
                    assert(model::ends_of_plan(core@.planner)[v] =~= model::ends_of_config(g)[v]);
                }
            }
        }
        core
    }

    pub fn metrics(&self) -> (metrics: CoreMetrics)
        ensures
            metrics == (CoreMetrics {
                active_sessions: self@.sessions.len() as usize,
                active_sequences: self@.filter.len() as usize,
                ..self@.metrics
            }),
            self@.sessions.len() <= usize::MAX,
            self@.filter.len() <= usize::MAX,
    {
        assert(self@.sessions.dom() =~= self.sessions@.dom());
        let mut metrics = self.metrics;
        metrics.active_sessions = self.sessions.len();
        metrics.active_sequences = self.sequence_filter.len();
        metrics
    }

    // -----------------------------------------------------------------------
    // Sending
    // -----------------------------------------------------------------------

    fn current_time(&self, elapsed_ms: u64) -> (time: u32)
        ensures
            time == machine::tick_at(self@.params.boot_time_ms, elapsed_ms),
    {
        machine::current_tick(self.config.boot_time_ms, elapsed_ms)
    }

    fn feedback_due(&self, elapsed_ms: u64) -> (due: bool)
        ensures
            due == model::feedback_due(self@, elapsed_ms),
    {
        elapsed_ms >= self.next_feedback_at
    }

    /// Puts a payload into an envelope and sends it on the best route, if there is one.
    fn send_envelope(
        &mut self,
        elapsed_ms: u64,
        stamp: EnvelopeStamp,
        payload: Vec<u8>,
        sample: bool,
        actions: &mut Vec<CoreAction>,
    )
        requires
            old(self).wf(),
            payload@.len() + old(self)@.params.scheduled_packet_overhead
                <= old(self)@.params.mtu,
            stamp.time < 0x400_0000,
            stamp.seq_id < SEQUENCE_LIMIT,
            stamp.seq_no < SEQUENCE_LIMIT,
            ({
                let opened = model::opened_message(
                    old(self)@.params.message_key,
                    stamp,
                    payload@,
                );
                opened is Some && wire::decode_endpoint(opened->0) is Some
            }),
        ensures
            final(self).wf(),
            step_of(*final(self), final(actions)@) == model::envelope_sent(
                step_of(*old(self), old(actions)@),
                elapsed_ms,
                stamp,
                payload@,
                sample,
            ),
            final(self)@.params == old(self)@.params,
            model::well_sent(step_of(*old(self), old(actions)@)) ==> model::well_sent(
                step_of(*final(self), final(actions)@),
            ),
            final(self)@.sessions == old(self)@.sessions,
            final(self)@.tombstones == old(self)@.tombstones,
            final(self)@.filter == old(self)@.filter,
            match routing::planned(
                old(self)@.planner,
                elapsed_ms,
                (payload@.len() + old(self)@.params.scheduled_packet_overhead) as usize,
                sample,
            ).1 {
                Some(plan) => {
                    &&& final(actions)@.len() == old(actions)@.len() + 1
                    &&& model::carries(
                        old(self)@.params,
                        final(actions)@.last()@,
                        wire::decode_endpoint(
                            model::opened_message(
                                old(self)@.params.message_key,
                                stamp,
                                payload@,
                            )->0,
                        )->0,
                    )
                },
                None => final(actions)@ == old(actions)@,
            },
    {
        let ghost before = self@;
        let ghost acts = machine::action_states(actions@);
        proof {
            reveal(model::envelope_sent);
        }
        let scheduled_bytes: usize = payload.len() + self.scheduled_packet_overhead;
        let planned = self.route_planner.build_route_plan(elapsed_ms, scheduled_bytes, sample);
        proof {
            laws::lemma_planner_kept(before, self.route_planner@, before.outstanding);
        }
        let full_plan = match planned {
            None => {
                assert(self@ =~= before);
                return ;
            },
            Some(plan) => plan,
        };
        proof {
            routing::law_plan_is_walkable(before.planner, elapsed_ms, scheduled_bytes, sample);
            laws::lemma_walk_len(before.planner, 0, full_plan@);
            routing::lemma_walkable_topology(
                before.planner,
                self.route_planner@,
                0,
                full_plan@,
            );
            if model::well_sent(step_of(*old(self), old(actions)@)) {
                laws::lemma_sent_topology(
                    before.params,
                    before.planner,
                    self.route_planner@,
                    acts,
                );
            }
        }
        let channel_id: ChannelId = full_plan[0];
        let unpadded_len: usize = TRANSPORT_PACKET_OVERHEAD + ENVELOPE_FIXED_OVERHEAD + (
        full_plan.len() - 1) * CHANNEL_ID_SIZE + payload.len();
        let room: usize = limits::effective_transport_mtu(self.config.route.min_mtu)
            - unpadded_len;
        let padding_len: u8 = packet::choose_padding(&mut self.random, room);
        let route_plan = plan_tail(&full_plan);
        let envelope = Envelope {
            time: stamp.time,
            seq_id: stamp.seq_id,
            seq_no: stamp.seq_no,
            route_plan,
            payload,
            padding_len,
        };
        let bytes = packet::encode_transport_packet(
            &self.config.envelope_key,
            &mut self.random,
            &envelope,
        );
        let action = CoreAction::SendTransportPacket { channel_id, bytes };
        proof {
            reveal(model::made_here);
            assert(wire::stamp_of(envelope@) == stamp);
            assert(model::made_here(before.params, bytes@));
            machine::lemma_action_push(actions@, action);
            if model::well_sent(step_of(*self, actions@)) {
                laws::lemma_sent_push(
                    self@.params,
                    self@.planner,
                    machine::action_states(actions@),
                    action@,
                );
            }
        }
        actions.push(action);
        self.metrics.packets_sent = bump(self.metrics.packets_sent);
        if self.config.keepalive_interval_ms != 0 {
            self.next_keepalive_at = later(elapsed_ms, self.config.keepalive_interval_ms as u64);
        }
        if sample {
            let interval: u64 = self.config.route.feedback_interval_ms as u64;
            let jitter: u64 = self.random.u64() % interval;
            self.next_feedback_at = later(elapsed_ms, interval + jitter);
            let sample = FeedbackSample {
                route_plan: full_plan,
                sent_at: elapsed_ms,
                deadline: later(elapsed_ms, self.config.route.feedback_timeout_ms as u64),
            };
            let ghost entry = sample@;
            let ghost prior = self@.outstanding;
            self.outstanding.insert((stamp.seq_id, stamp.seq_no), sample);
            assert(self@.outstanding =~= prior.insert((stamp.seq_id, stamp.seq_no), entry));
        }
        proof {
            assert(self@.sessions =~= before.sessions);
            let expected = model::envelope_sent(
                Step { core: before, actions: acts },
                elapsed_ms,
                stamp,
                envelope.payload@,
                sample,
            );
            assert(envelope@ =~= (wire::EnvelopeState {
                time: stamp.time,
                seq_id: stamp.seq_id,
                seq_no: stamp.seq_no,
                route_plan: full_plan@.drop_first(),
                payload: envelope.payload@,
                padding_len,
            }));
            assert(self@ =~= expected.core);
            assert(machine::action_states(actions@) =~= expected.actions);
        }
    }

    /// The id of this sender and the next packet number.
    fn next_sequence(&mut self) -> (id: (u64, u64))
        requires
            old(self).wf(),
        ensures
            final(self).wf(),
            final(self)@ == model::numbered(old(self)@),
            id.0 == final(self)@.seq_id,
            id.1 == final(self)@.next_seq_no - 1,
    {
        if self.next_seq_no >= SEQUENCE_LIMIT {
            self.seq_id = self.random.u64() % SEQUENCE_LIMIT;
            self.next_seq_no = 0;
        }
        let seq_no: u64 = self.next_seq_no;
        self.next_seq_no = self.next_seq_no + 1;
        proof {
            assert(self@.sessions =~= old(self)@.sessions);
            assert(self@.outstanding =~= old(self)@.outstanding);
            assert(self@ =~= model::numbered(old(self)@));
        }
        (self.seq_id, seq_no)
    }

    /// Seals a message for the peer. It opens to this very message under the same key and
    /// stamp.
    fn seal_endpoint_message(
        &self,
        stamp: EnvelopeStamp,
        message: &EndpointMessage,
    ) -> (payload: Vec<u8>)
        requires
            wire::reply_depth_of(message@) <= 3,
        ensures
            payload@ == model::sealed_message(self@.params.message_key, stamp, message@),
            payload@.len() == 16 + wire::encode_endpoint(message@).len(),
            model::opened_message(self@.params.message_key, stamp, payload@) == Some(
                wire::encode_endpoint(message@),
            ),
    {
        let plain = message.encode_with_prefix(0);
        assert(plain@ =~= wire::encode_endpoint(message@));
        let nonce = wire::endpoint_nonce(stamp);
        let none: Vec<u8> = Vec::new();
        assert(none@ =~= Seq::empty());
        let (ciphertext, tag) = crypto::aegis_encrypt(
            &self.config.message_key,
            &nonce,
            plain.as_slice(),
            none.as_slice(),
        );
        let mut payload = octets::array16_to_vec(&tag);
        payload.extend_from_slice(ciphertext.as_slice());
        assert(payload@ =~= tag@ + ciphertext@);
        assert(payload@.skip(16) =~= ciphertext@);
        assert(payload@.take(16) =~= tag@);
        payload
    }

    /// Opens a payload of the peer.
    fn open_endpoint_message(
        &self,
        stamp: EnvelopeStamp,
        payload: &Vec<u8>,
    ) -> (plain: Option<Vec<u8>>)
        ensures
            match model::opened_message(self@.params.message_key, stamp, payload@) {
                Some(m) => plain is Some && plain->0@ == m,
                None => plain is None,
            },
    {
        if payload.len() < 16 {
            return None;
        }
        let nonce = wire::endpoint_nonce(stamp);
        let tag = octets::array16_at(payload.as_slice(), 0);
        let ciphertext = octets::copy_range(payload.as_slice(), 16, payload.len());
        assert(ciphertext@ =~= payload@.skip(16));
        assert(tag@ =~= payload@.take(16));
        let none: Vec<u8> = Vec::new();
        assert(none@ =~= Seq::empty());
        crypto::aegis_decrypt(
            &self.config.message_key,
            &nonce,
            ciphertext.as_slice(),
            &tag,
            none.as_slice(),
        )
    }

    fn send_endpoint_message(
        &mut self,
        elapsed_ms: u64,
        message: &EndpointMessage,
        sample: bool,
        actions: &mut Vec<CoreAction>,
    )
        requires
            old(self).wf(),
            wire::endpoint_fits(message@),
            wire::encode_endpoint(message@).len() + 16
                + old(self)@.params.scheduled_packet_overhead <= old(self)@.params.mtu,
        ensures
            final(self).wf(),
            step_of(*final(self), final(actions)@) == model::message_sent(
                step_of(*old(self), old(actions)@),
                elapsed_ms,
                message@,
                sample,
            ),
            final(self)@.params == old(self)@.params,
            model::well_sent(step_of(*old(self), old(actions)@)) ==> model::well_sent(
                step_of(*final(self), final(actions)@),
            ),
            final(self)@.sessions == old(self)@.sessions,
            final(self)@.tombstones == old(self)@.tombstones,
            final(self)@.filter == old(self)@.filter,
            match routing::planned(
                old(self)@.planner,
                elapsed_ms,
                (wire::encode_endpoint(message@).len() + 16
                    + old(self)@.params.scheduled_packet_overhead) as usize,
                sample,
            ).1 {
                Some(_) => {
                    &&& final(actions)@.len() == old(actions)@.len() + 1
                    &&& model::carries(
                        old(self)@.params,
                        final(actions)@.last()@,
                        message@,
                    )
                },
                None => final(actions)@ == old(actions)@,
            },
    {
        proof {
            reveal(model::message_sent);
        }
        let (seq_id, seq_no) = self.next_sequence();
        let stamp = EnvelopeStamp { time: self.current_time(elapsed_ms), seq_id, seq_no };
        let payload = self.seal_endpoint_message(stamp, message);
        proof {
            wire::law_endpoint_message_roundtrip(message@);
        }
        self.send_envelope(elapsed_ms, stamp, payload, sample, actions);
    }

    fn send_kcp_packets(
        &mut self,
        elapsed_ms: u64,
        packets: Vec<Vec<u8>>,
        actions: &mut Vec<CoreAction>,
    )
        requires
            old(self).wf(),
            session::packets_fit(old(self)@.params.kcp, kcp::control::packets(packets@)),
        ensures
            final(self).wf(),
            step_of(*final(self), final(actions)@) == model::packets_sent(
                step_of(*old(self), old(actions)@),
                elapsed_ms,
                kcp::control::packets(packets@),
            ),
            final(self)@.params == old(self)@.params,
            model::well_sent(step_of(*old(self), old(actions)@)) ==> model::well_sent(
                step_of(*final(self), final(actions)@),
            ),
            final(self)@.sessions == old(self)@.sessions,
            final(self)@.tombstones == old(self)@.tombstones,
            final(self)@.filter == old(self)@.filter,
    {
        let ghost all = kcp::control::packets(packets@);
        let mut i: usize = 0;
        assert(all.skip(0) =~= all);
        proof {
            reveal(model::packets_sent);
        }
        while i < packets.len()
            invariant
                self.wf(),
                i <= packets@.len() == all.len(),
                all == kcp::control::packets(packets@),
                session::packets_fit(self@.params.kcp, all),
                self@.params == old(self)@.params,
                model::well_sent(step_of(*old(self), old(actions)@)) ==> model::well_sent(
                    step_of(*self, actions@),
                ),
                self@.sessions == old(self)@.sessions,
                self@.tombstones == old(self)@.tombstones,
                self@.filter == old(self)@.filter,
                model::packets_sent(
                    step_of(*self, actions@),
                    elapsed_ms,
                    all.skip(i as int),
                ) == model::packets_sent(step_of(*old(self), old(actions)@), elapsed_ms, all),
            decreases packets@.len() - i,
        {
            let sample: bool = self.feedback_due(elapsed_ms);
            let packet = octets::copy_range(packets[i].as_slice(), 0, packets[i].len());
            proof {
                reveal(model::packets_sent);
                assert(packet@ =~= all[i as int]);
                assert(all[i as int].len() <= self@.params.kcp.mtu);
                assert(all.skip(i as int)[0] == all[i as int]);
                assert(all.skip(i as int).drop_first() =~= all.skip(i + 1));
            }
            let reply_depth: u8 = if sample {
                1
            } else {
                0
            };
            let message = EndpointMessage::KcpPacket { reply_depth, packet };
            self.send_endpoint_message(elapsed_ms, &message, sample, actions);
            i = i + 1;
        }
        proof {
            reveal(model::packets_sent);
            assert(all.skip(i as int) =~= Seq::empty());
        }
    }

    // -----------------------------------------------------------------------
    // Sessions
    // -----------------------------------------------------------------------

    /// Takes a session out of the table.
    fn take_session(&mut self, conv_id: ConvId) -> (session: Option<EndpointSession>)
        requires
            old(self).wf(),
        ensures
            final(self).wf(),
            match session {
                Some(session) => {
                    &&& old(self)@.sessions.contains_key(conv_id)
                    &&& session@ == old(self)@.sessions[conv_id]
                    &&& final(self)@ == model::drop_session(old(self)@, conv_id)
                },
                None => !old(self)@.sessions.contains_key(conv_id) && final(self)@ == old(self)@,
            },
    {
        let ghost before = self@;
        let session = self.sessions.remove(&conv_id);
        proof {
            assert(self@.outstanding =~= before.outstanding);
            assert(self@.sessions =~= before.sessions.remove(conv_id));
            if session is None {
                assert(self@.sessions =~= before.sessions);
            }
        }
        session
    }

    /// Puts a session into the table.
    fn put_session(&mut self, conv_id: ConvId, session: EndpointSession)
        requires
            old(self).wf(),
            session::session_ok(old(self)@.params.kcp, conv_id, session@),
        ensures
            final(self).wf(),
            final(self)@ == model::put_session(old(self)@, conv_id, session@),
    {
        let ghost before = self@;
        self.sessions.insert(conv_id, session);
        proof {
            assert(self@.outstanding =~= before.outstanding);
            assert(self@.sessions =~= before.sessions.insert(conv_id, session@));
        }
    }

    fn drop_packet(&mut self)
        requires
            old(self).wf(),
        ensures
            final(self).wf(),
            final(self)@ == model::count_dropped(old(self)@),
    {
        self.metrics.packets_dropped = bump(self.metrics.packets_dropped);
        assert(self@ =~= model::count_dropped(old(self)@));
    }

    /// Remembers that a session is closed.
    fn bury(&mut self, conv_id: ConvId, elapsed_ms: u64)
        requires
            old(self).wf(),
        ensures
            final(self).wf(),
            final(self)@ == (EndpointState {
                tombstones: old(self)@.tombstones.insert(
                    conv_id,
                    model::later(elapsed_ms, SESSION_TOMBSTONE_MS as int),
                ),
                ..old(self)@
            }),
    {
        self.tombstones.insert(conv_id, later(elapsed_ms, SESSION_TOMBSTONE_MS));
        assert(self@.outstanding =~= old(self)@.outstanding);
        assert(self@.sessions =~= old(self)@.sessions);
    }

    /// Gives up a session that has nothing left to do.
    fn finish_closed_session(
        &mut self,
        elapsed_ms: u64,
        conv_id: ConvId,
        actions: &mut Vec<CoreAction>,
    )
        requires
            old(self).wf(),
        ensures
            final(self).wf(),
            step_of(*final(self), final(actions)@) == model::closed_finished(
                step_of(*old(self), old(actions)@),
                elapsed_ms,
                conv_id,
            ),
            final(self)@.params == old(self)@.params,
            model::well_sent(step_of(*old(self), old(actions)@)) ==> model::well_sent(
                step_of(*final(self), final(actions)@),
            ),
            forall|conv: u64|
                conv != conv_id ==> #[trigger] final(self)@.sessions.contains_key(conv)
                    == old(self)@.sessions.contains_key(conv),
            old(self)@.sessions.contains_key(conv_id) && !model::finished(
                old(self)@.sessions[conv_id],
                elapsed_ms,
            ) ==> final(self)@ == old(self)@,
    {
        proof {
            reveal(model::closed_finished);
        }
        let ghost before = self@;
        let session = match self.take_session(conv_id) {
            None => {
                return ;
            },
            Some(session) => session,
        };
        let deadline_hit: bool = match session.close_deadline_at {
            Some(deadline) => elapsed_ms >= deadline,
            None => false,
        };
        let done: bool = match session.phase {
            SessionPhase::PendingRemote => deadline_hit,
            SessionPhase::ClosingLocal => session.kcp.wait_snd() == 0 || deadline_hit,
            SessionPhase::ClosingRemote => deadline_hit,
            SessionPhase::Open => false,
        };
        if !done {
            self.put_session(conv_id, session);
            assert(self@.sessions =~= before.sessions);
            assert(self@ =~= before);
            return ;
        }
        if session.phase == SessionPhase::PendingRemote {
            self.drop_packet();
            return ;
        }
        if session.phase == SessionPhase::ClosingLocal {
            if let Some(reason) = session.pending_close {
                let action = CoreAction::CloseSession { conv_id, reason };
                proof {
                    machine::lemma_action_push(actions@, action);
                    if model::well_sent(step_of(*self, actions@)) {
                        laws::lemma_sent_push(
                            self@.params,
                            self@.planner,
                            machine::action_states(actions@),
                            action@,
                        );
                    }
                }
                actions.push(action);
            }
        }
        self.bury(conv_id, elapsed_ms);
    }

    fn send_session_message(
        &mut self,
        elapsed_ms: u64,
        conv_id: ConvId,
        message: &SessionMessage,
        actions: &mut Vec<CoreAction>,
    )
        requires
            old(self).wf(),
            old(self)@.sessions.contains_key(conv_id),
            ({
                let count = session::message_segments(
                    old(self)@.params.kcp,
                    wire::encode_session(message@).len(),
                );
                &&& count < old(self)@.params.kcp.receive_window
                &&& count < 256
                &&& kcp::laws::pending(old(self)@.sessions[conv_id].kcp) + count
                    <= session::max_pending(old(self)@.params.kcp)
            }),
        ensures
            final(self).wf(),
            step_of(*final(self), final(actions)@) == model::session_sent(
                step_of(*old(self), old(actions)@),
                elapsed_ms,
                conv_id,
                message@,
            ),
            final(self)@.params == old(self)@.params,
            model::well_sent(step_of(*old(self), old(actions)@)) ==> model::well_sent(
                step_of(*final(self), final(actions)@),
            ),
            forall|conv: u64|
                conv != conv_id ==> #[trigger] final(self)@.sessions.contains_key(conv)
                    == old(self)@.sessions.contains_key(conv),
            !model::deadline_hit(old(self)@.sessions[conv_id], elapsed_ms)
                ==> final(self)@.sessions.contains_key(conv_id),
    {
        proof {
            reveal(model::session_sent);
            wire::lemma_session_len(message@);
            session::lemma_message_segments(
                self@.params.kcp,
                wire::encode_session(message@).len(),
            );
        }
        let ghost before = self@;
        if let Some(mut session) = self.take_session(conv_id) {
            let packets = session.send_message(
                Ghost(before.params.kcp),
                Ghost(conv_id),
                elapsed_ms,
                message,
            );
            let ghost kept = session@;
            self.put_session(conv_id, session);
            assert(self@ =~= model::put_session(before, conv_id, kept));
            self.send_kcp_packets(elapsed_ms, packets, actions);
            self.finish_closed_session(elapsed_ms, conv_id, actions);
        }
    }

    /// Announces a local close as soon as the queue has room.
    fn queue_local_close(
        &mut self,
        elapsed_ms: u64,
        conv_id: ConvId,
        actions: &mut Vec<CoreAction>,
    )
        requires
            old(self).wf(),
        ensures
            final(self).wf(),
            step_of(*final(self), final(actions)@) == model::close_announced(
                step_of(*old(self), old(actions)@),
                elapsed_ms,
                conv_id,
            ),
            final(self)@.params == old(self)@.params,
            model::well_sent(step_of(*old(self), old(actions)@)) ==> model::well_sent(
                step_of(*final(self), final(actions)@),
            ),
            forall|conv: u64| #[trigger]
                final(self)@.sessions.contains_key(conv) == old(self)@.sessions.contains_key(conv),
    {
        proof {
            reveal(model::close_announced);
        }
        let ghost before = self@;
        let mut session = match self.take_session(conv_id) {
            None => {
                return ;
            },
            Some(session) => session,
        };
        let in_time: bool = match session.close_deadline_at {
            Some(deadline) => elapsed_ms < deadline,
            None => false,
        };
        if session.phase != SessionPhase::ClosingLocal || session.close_queued || !in_time
            || session.kcp.wait_snd() >= self.kcp_params.send_window as usize {
            self.put_session(conv_id, session);
            assert(self@.sessions =~= before.sessions);
            assert(self@ =~= before);
            return ;
        }
        if let Some(reason) = session.pending_close {
            session.close_queued = true;
            let ghost kept = session@;
            self.put_session(conv_id, session);
            assert(self@ =~= model::put_session(before, conv_id, kept));
            let message = SessionMessage::Close { reason };
            proof {
                session::lemma_message_segments(self@.params.kcp, 2);
            }
            self.send_session_message(elapsed_ms, conv_id, &message, actions);
        }
    }

    fn handle_session_message(
        &mut self,
        elapsed_ms: u64,
        conv_id: ConvId,
        message: SessionMessage,
        actions: &mut Vec<CoreAction>,
    )
        requires
            old(self).wf(),
        ensures
            final(self).wf(),
            step_of(*final(self), final(actions)@) == model::session_received(
                step_of(*old(self), old(actions)@),
                elapsed_ms,
                conv_id,
                message@,
            ),
            final(self)@.params == old(self)@.params,
            model::well_sent(step_of(*old(self), old(actions)@)) ==> model::well_sent(
                step_of(*final(self), final(actions)@),
            ),
    {
        proof {
            reveal(model::session_received);
        }
        let ghost before = self@;
        let ghost st = step_of(*self, actions@);
        let mut session = match self.take_session(conv_id) {
            None => {
                return ;
            },
            Some(session) => session,
        };
        let ghost original = session@;
        match message {
            SessionMessage::Open => {
                match session.phase {
                    SessionPhase::PendingRemote => {
                        session.phase = SessionPhase::Open;
                        session.close_deadline_at = None;
                        self.put_session(conv_id, session);
                        let action = CoreAction::OpenSession { conv_id };
                        proof {
                            machine::lemma_action_push(actions@, action);
                            if model::well_sent(step_of(*self, actions@)) {
                                laws::lemma_sent_push(
                                    self@.params,
                                    self@.planner,
                                    machine::action_states(actions@),
                                    action@,
                                );
                            }
                        }
                        actions.push(action);
                    },
                    SessionPhase::Open => {
                        self.put_session(conv_id, session);
                        assert(self@.sessions =~= before.sessions);
                    },
                    _ => {
                        self.put_session(conv_id, session);
                        assert(self@.sessions =~= before.sessions);
                        self.drop_packet();
                    },
                }
            },
            SessionMessage::Data { bytes } => {
                match session.phase {
                    SessionPhase::Open => {
                        self.put_session(conv_id, session);
                        assert(self@.sessions =~= before.sessions);
                        let action = CoreAction::WriteSession { conv_id, bytes };
                        proof {
                            machine::lemma_action_push(actions@, action);
                            if model::well_sent(step_of(*self, actions@)) {
                                laws::lemma_sent_push(
                                    self@.params,
                                    self@.planner,
                                    machine::action_states(actions@),
                                    action@,
                                );
                            }
                        }
                        actions.push(action);
                    },
                    SessionPhase::PendingRemote => {
                        self.drop_packet();
                    },
                    _ => {
                        self.put_session(conv_id, session);
                        assert(self@.sessions =~= before.sessions);
                        self.drop_packet();
                    },
                }
            },
            SessionMessage::Close { reason } => {
                match session.phase {
                    SessionPhase::PendingRemote => {
                        self.drop_packet();
                    },
                    SessionPhase::Open => {
                        session.phase = SessionPhase::ClosingRemote;
                        session.close_deadline_at = Some(later(elapsed_ms, self.close_deadline_ms));
                        self.put_session(conv_id, session);
                        let action = CoreAction::CloseSession { conv_id, reason };
                        proof {
                            machine::lemma_action_push(actions@, action);
                            if model::well_sent(step_of(*self, actions@)) {
                                laws::lemma_sent_push(
                                    self@.params,
                                    self@.planner,
                                    machine::action_states(actions@),
                                    action@,
                                );
                            }
                        }
                        actions.push(action);
                    },
                    // the peer closed too, or repeats its close; KCP acknowledges that
                    _ => {
                        self.put_session(conv_id, session);
                        assert(self@.sessions =~= before.sessions);
                    },
                }
            },
        }
        proof {
            let expected = model::session_received(st, elapsed_ms, conv_id, message@);
            assert(self@.sessions =~= expected.core.sessions);
            assert(self@ =~= expected.core);
        }
    }

    fn handle_session_messages(
        &mut self,
        elapsed_ms: u64,
        conv_id: ConvId,
        messages: &Vec<Vec<u8>>,
        actions: &mut Vec<CoreAction>,
    )
        requires
            old(self).wf(),
            session::messages_decode(kcp::control::packets(messages@)),
        ensures
            final(self).wf(),
            step_of(*final(self), final(actions)@) == model::messages_received(
                step_of(*old(self), old(actions)@),
                elapsed_ms,
                conv_id,
                kcp::control::packets(messages@),
            ),
            final(self)@.params == old(self)@.params,
            model::well_sent(step_of(*old(self), old(actions)@)) ==> model::well_sent(
                step_of(*final(self), final(actions)@),
            ),
    {
        let ghost all = kcp::control::packets(messages@);
        let mut i: usize = 0;
        assert(all.skip(0) =~= all);
        while i < messages.len()
            invariant
                self.wf(),
                i <= messages@.len() == all.len(),
                all == kcp::control::packets(messages@),
                session::messages_decode(all),
                self@.params == old(self)@.params,
                model::well_sent(step_of(*old(self), old(actions)@)) ==> model::well_sent(
                    step_of(*self, actions@),
                ),
                model::messages_received(
                    step_of(*self, actions@),
                    elapsed_ms,
                    conv_id,
                    all.skip(i as int),
                ) == model::messages_received(
                    step_of(*old(self), old(actions)@),
                    elapsed_ms,
                    conv_id,
                    all,
                ),
            decreases messages@.len() - i,
        {
            proof {
                reveal(model::messages_received);
                assert(wire::decode_session(all[i as int]) is Some);
                assert(all.skip(i as int)[0] == all[i as int]);
                assert(all.skip(i as int).drop_first() =~= all.skip(i + 1));
            }
            let message = SessionMessage::decode(messages[i].as_slice());
            self.handle_session_message(elapsed_ms, conv_id, message, actions);
            i = i + 1;
        }
        proof {
            reveal(model::messages_received);
            assert(all.skip(i as int) =~= Seq::empty());
        }
    }

    // -----------------------------------------------------------------------
    // Packets
    // -----------------------------------------------------------------------

    fn handle_kcp_packet(
        &mut self,
        elapsed_ms: u64,
        peer_seq: u64,
        kcp_packet: &Vec<u8>,
        actions: &mut Vec<CoreAction>,
    )
        requires
            old(self).wf(),
            model::kcp_acceptable(old(self)@, elapsed_ms, peer_seq, kcp_packet@),
        ensures
            final(self).wf(),
            step_of(*final(self), final(actions)@) == model::kcp_received(
                step_of(*old(self), old(actions)@),
                elapsed_ms,
                peer_seq,
                kcp_packet@,
            ),
            final(self)@.params == old(self)@.params,
            model::well_sent(step_of(*old(self), old(actions)@)) ==> model::well_sent(
                step_of(*final(self), final(actions)@),
            ),
    {
        proof {
            reveal(model::kcp_received);
        }
        let ghost before = self@;
        let conv_id: ConvId = get_conv(kcp_packet.as_slice());
        if self.tombstones.contains_key(&conv_id) {
            self.drop_packet();
            return ;
        }
        let mut session = match self.take_session(conv_id) {
            Some(session) => session,
            None => {
                let mut session = EndpointSession::new(
                    conv_id,
                    self.kcp_params,
                    SessionPhase::PendingRemote,
                );
                session.peer_seq = Some(peer_seq);
                session.close_deadline_at = Some(later(elapsed_ms, self.close_deadline_ms));
                session
            },
        };
        let foreign: bool = match session.peer_seq {
            Some(bound) => bound != peer_seq,
            None => false,
        };
        if foreign {
            self.put_session(conv_id, session);
            assert(self@.sessions =~= before.sessions);
            self.drop_packet();
            return ;
        }
        session.peer_seq = Some(peer_seq);
        proof {
            assert(session@ =~= model::addressed_session(before, elapsed_ms, peer_seq, conv_id));
        }
        let output = session.input_packet(
            Ghost(before.params.kcp),
            Ghost(conv_id),
            elapsed_ms,
            kcp_packet,
        );
        let ghost kept = session@;
        self.put_session(conv_id, session);
        proof {
            assert(self@.sessions =~= before.sessions.insert(conv_id, kept));
            assert(self@ =~= model::put_session(before, conv_id, kept));
        }
        self.send_kcp_packets(elapsed_ms, output.packets, actions);
        self.handle_session_messages(elapsed_ms, conv_id, &output.messages, actions);
        self.queue_local_close(elapsed_ms, conv_id, actions);
        self.finish_closed_session(elapsed_ms, conv_id, actions);
    }

    fn handle_message(
        &mut self,
        elapsed_ms: u64,
        stamp: EnvelopeStamp,
        message: &EndpointMessage,
        actions: &mut Vec<CoreAction>,
    )
        requires
            old(self).wf(),
            message@ matches wire::EndpointMessageState::KcpPacket { packet, .. }
                ==> model::kcp_acceptable(old(self)@, elapsed_ms, stamp.seq_id, packet),
        ensures
            final(self).wf(),
            step_of(*final(self), final(actions)@) == model::message_handled(
                step_of(*old(self), old(actions)@),
                elapsed_ms,
                stamp,
                message@,
            ),
            final(self)@.params == old(self)@.params,
            model::well_sent(step_of(*old(self), old(actions)@)) ==> model::well_sent(
                step_of(*final(self), final(actions)@),
            ),
    {
        proof {
            reveal(model::message_handled);
        }
        let ghost before = self@;
        match message {
            EndpointMessage::KcpPacket { packet, .. } => {
                self.handle_kcp_packet(elapsed_ms, stamp.seq_id, packet, actions);
            },
            EndpointMessage::KeepAlive { .. } => {},
            EndpointMessage::RouteReply { received_seq_id, received_seq_no, .. } => {
                let id: (u64, u64) = (*received_seq_id, *received_seq_no);
                if let Some(sample) = self.outstanding.remove(&id) {
                    proof {
                        assert(before.outstanding.contains_key(id));
                        assert(before.outstanding[id] == sample@);
                        assert(self@.outstanding =~= before.outstanding.remove(id));
                        assert(self@.sessions =~= before.sessions);
                    }
                    self.route_planner.note_feedback(&sample.route_plan, sample.sent_at, true);
                    proof {
                        laws::lemma_planner_kept(
                            before,
                            self.route_planner@,
                            before.outstanding.remove(id),
                        );
                        if model::well_sent(step_of(*old(self), old(actions)@)) {
                            laws::lemma_sent_topology(
                                before.params,
                                before.planner,
                                self.route_planner@,
                                machine::action_states(actions@),
                            );
                        }
                    }
                } else {
                    assert(self@.outstanding =~= before.outstanding);
                    assert(self@.sessions =~= before.sessions);
                    assert(self@ =~= before);
                }
            },
        }
    }

    /// Answers a message that asks for it.
    fn reply(
        &mut self,
        elapsed_ms: u64,
        stamp: EnvelopeStamp,
        reply_depth: u8,
        actions: &mut Vec<CoreAction>,
    )
        requires
            old(self).wf(),
            stamp.seq_id < SEQUENCE_LIMIT,
            stamp.seq_no < SEQUENCE_LIMIT,
        ensures
            final(self).wf(),
            step_of(*final(self), final(actions)@) == model::replied(
                step_of(*old(self), old(actions)@),
                elapsed_ms,
                stamp,
                reply_depth,
            ),
            final(self)@.params == old(self)@.params,
            model::well_sent(step_of(*old(self), old(actions)@)) ==> model::well_sent(
                step_of(*final(self), final(actions)@),
            ),
    {
        proof {
            reveal(model::replied);
        }
        if reply_depth == 0 {
            return ;
        }
        let sample: bool = reply_depth < 3 && self.feedback_due(elapsed_ms);
        let message = EndpointMessage::RouteReply {
            reply_depth: if sample {
                reply_depth + 1
            } else {
                0
            },
            received_seq_id: stamp.seq_id,
            received_seq_no: stamp.seq_no,
        };
        proof {
            wire::lemma_endpoint_len(message@);
        }
        self.send_endpoint_message(elapsed_ms, &message, sample, actions);
    }

    fn handle_transport_packet(
        &mut self,
        elapsed_ms: u64,
        bytes: &Vec<u8>,
        actions: &mut Vec<CoreAction>,
    )
        requires
            old(self).wf(),
            model::received_acceptable(old(self)@, elapsed_ms, bytes@),
        ensures
            final(self).wf(),
            step_of(*final(self), final(actions)@) == model::packet_received(
                step_of(*old(self), old(actions)@),
                elapsed_ms,
                bytes@,
            ),
            final(self)@.params == old(self)@.params,
            model::well_sent(step_of(*old(self), old(actions)@)) ==> model::well_sent(
                step_of(*final(self), final(actions)@),
            ),
    {
        proof {
            reveal(model::packet_received);
            reveal(model::received_acceptable);
        }
        let ghost before = self@;
        let current_time: u32 = self.current_time(elapsed_ms);
        let first_sequence: bool = self.sequence_filter.len() == 0;
        let envelope = match machine::receive_transport_packet(
            &self.config.envelope_key,
            &mut self.metrics,
            bytes,
        ) {
            Some(envelope) => envelope,
            None => {
                assert(self@ =~= (EndpointState { metrics: self.metrics, ..before }));
                return ;
            },
        };
        assert(self@ =~= before);
        if envelope.route_plan.len() != 0 {
            self.drop_packet();
            return ;
        }
        let stamp = envelope.stamp();
        let plain = match self.open_endpoint_message(stamp, &envelope.payload) {
            Some(plain) => plain,
            None => {
                self.metrics.authentication_failures = bump(self.metrics.authentication_failures);
                assert(self@ =~= (EndpointState { metrics: self.metrics, ..before }));
                return ;
            },
        };
        let message = EndpointMessage::decode(plain.as_slice());
        let accepted: bool = machine::check_sequence(
            &mut self.sequence_filter,
            &mut self.metrics,
            current_time,
            stamp,
        );
        if !accepted {
            assert(self@ =~= model::admitted(before, elapsed_ms, stamp).0);
            return ;
        }
        machine::note_latest_sequence(
            &mut self.metrics,
            self.config.boot_time_ms,
            elapsed_ms,
            stamp.time,
            first_sequence,
        );
        proof {
            assert(self@ =~= model::admitted(before, elapsed_ms, stamp).0);
            laws::lemma_admitted_acceptable(before, elapsed_ms, stamp, message@);
            packet::lemma_opened_fits(before.params.envelope_key, bytes@);
        }
        let reply_depth: u8 = message.reply_depth();
        self.handle_message(elapsed_ms, stamp, &message, actions);
        self.reply(elapsed_ms, stamp, reply_depth, actions);
    }

    fn handle_send_failure(
        &mut self,
        elapsed_ms: u64,
        channel_id: ChannelId,
        bytes: &Vec<u8>,
        actions: &mut Vec<CoreAction>,
    )
        requires
            old(self).wf(),
            model::refused_acceptable(old(self)@, channel_id, bytes@),
        ensures
            final(self).wf(),
            step_of(*final(self), final(actions)@) == model::send_refused(
                step_of(*old(self), old(actions)@),
                elapsed_ms,
                channel_id,
                bytes@,
            ),
            final(self)@.params == old(self)@.params,
            model::well_sent(step_of(*old(self), old(actions)@)) ==> model::well_sent(
                step_of(*final(self), final(actions)@),
            ),
    {
        proof {
            reveal(model::send_refused);
            reveal(model::made_here);
        }
        let ghost before = self@;
        self.metrics.send_failures = bump(self.metrics.send_failures);
        self.route_planner.note_local_send_failure(channel_id, elapsed_ms);
        proof {
            laws::lemma_planner_kept(before, self.route_planner@, before.outstanding);
            packet::lemma_opened_fits(before.params.envelope_key, bytes@);
            if model::well_sent(step_of(*old(self), old(actions)@)) {
                laws::lemma_sent_topology(
                    before.params,
                    before.planner,
                    self.route_planner@,
                    machine::action_states(actions@),
                );
            }
        }
        if let Ok(envelope) = packet::decode_transport_packet(&self.config.envelope_key, bytes) {
            let stamp = envelope.stamp();
            let id: (u64, u64) = (stamp.seq_id, stamp.seq_no);
            let was_sample: bool = self.outstanding.remove(&id).is_some();
            if was_sample {
                self.next_feedback_at = elapsed_ms;
            }
            proof {
                assert(self@.outstanding =~= before.outstanding.remove(id));
                assert(self@.sessions =~= before.sessions);
            }
            if let Some(plain) = self.open_endpoint_message(stamp, &envelope.payload) {
                let message = EndpointMessage::decode(plain.as_slice());
                let resend: bool = match message {
                    EndpointMessage::KcpPacket { .. } => true,
                    _ => false,
                };
                if resend {
                    self.send_envelope(elapsed_ms, stamp, envelope.payload, was_sample, actions);
                }
            }
        }
    }

    // -----------------------------------------------------------------------
    // Events
    // -----------------------------------------------------------------------

    /// Deals with one event of the shell. A packet that is authentic comes from a peer that
    /// follows the protocol, and a refused packet was made here; see `try_handle_event` where
    /// that is not known.
    pub fn handle_event(
        &mut self,
        elapsed_ms: u64,
        event: CoreEvent,
        actions: &mut Vec<CoreAction>,
    ) -> (result: CoreEventResult)
        requires
            old(self).wf(),
            model::event_acceptable(old(self)@, elapsed_ms, event@),
        ensures
            final(self).wf(),
            final(self)@.params == old(self)@.params,
            model::well_sent(step_of(*old(self), old(actions)@)) ==> model::well_sent(
                step_of(*final(self), final(actions)@),
            ),
            (step_of(*final(self), final(actions)@), result) == model::event_handled(
                step_of(*old(self), old(actions)@),
                elapsed_ms,
                event@,
            ),
    {
        let ghost before = self@;
        match event {
            CoreEvent::SessionOpen => {
                let conv_id: ConvId = self.next_conv_id;
                self.next_conv_id = conv_id.wrapping_add(1);
                let session = EndpointSession::new(conv_id, self.kcp_params, SessionPhase::Open);
                assert(self@ =~= (EndpointState {
                    next_conv_id: conv_id.wrapping_add(1),
                    ..before
                }));
                self.put_session(conv_id, session);
                proof {
                    session::lemma_message_segments(self@.params.kcp, 1);
                    session::lemma_message_segments(self@.params.kcp, 2);
                }
                self.send_session_message(elapsed_ms, conv_id, &SessionMessage::Open, actions);
                CoreEventResult::SessionCreated { conv_id }
            },
            CoreEvent::SessionWrite { conv_id, bytes } => {
                let blocked: bool = match self.sessions.get(&conv_id) {
                    None => true,
                    Some(session) => {
                        assert(self@.sessions[conv_id] == session@);
                        assert(session::session_ok(self@.params.kcp, conv_id, session@));
                        self.write_is_blocked(session, bytes.len())
                    },
                };
                if blocked {
                    return CoreEventResult::SessionWriteBlocked;
                }
                let message = SessionMessage::Data { bytes };
                proof {
                    wire::lemma_session_len(message@);
                }
                self.send_session_message(elapsed_ms, conv_id, &message, actions);
                CoreEventResult::Handled
            },
            CoreEvent::SessionClose { conv_id, reason } => {
                if let Some(mut session) = self.take_session(conv_id) {
                    session.phase = SessionPhase::ClosingLocal;
                    session.close_deadline_at = Some(later(elapsed_ms, self.close_deadline_ms));
                    session.pending_close = Some(reason);
                    let ghost kept = session@;
                    self.put_session(conv_id, session);
                    proof {
                        assert(self@.sessions =~= before.sessions.insert(conv_id, kept));
                        assert(self@ =~= model::put_session(before, conv_id, kept));
                    }
                    self.queue_local_close(elapsed_ms, conv_id, actions);
                }
                CoreEventResult::Handled
            },
            CoreEvent::TransportPacketSendFailed { channel_id, bytes } => {
                self.handle_send_failure(elapsed_ms, channel_id, &bytes, actions);
                CoreEventResult::Handled
            },
            CoreEvent::TransportPacketReceived { bytes, .. } => {
                self.metrics.packets_received = bump(self.metrics.packets_received);
                proof {
                    assert(self@ =~= (EndpointState { metrics: self.metrics, ..before }));
                    laws::lemma_acceptable_metrics(before, self@, elapsed_ms, bytes@);
                }
                self.handle_transport_packet(elapsed_ms, &bytes, actions);
                CoreEventResult::Handled
            },
        }
    }

    /// Whether the queue of the session has no room for `len` bytes.
    fn write_is_blocked(&self, session: &EndpointSession, len: usize) -> (blocked: bool)
        requires
            self.wf(),
            kcp::laws::pending(session@.kcp) <= session::max_pending(self@.params.kcp),
        ensures
            blocked == (kcp::laws::pending(session@.kcp) + session::message_segments(
                self@.params.kcp,
                1 + len as nat,
            ) > self@.params.kcp.send_window),
    {
        let mss: usize = self.kcp_params.mtu - KCP_OVERHEAD;
        proof {
            kcp::laws::lemma_div_bound(len as int, mss as int);
        }
        let pieces: u64 = (len / mss) as u64;
        let waiting: u64 = session.kcp.wait_snd() as u64;
        pieces >= 65536 || waiting + pieces + 1 > self.kcp_params.send_window as u64
    }

    /// Whether a KCP packet of the authenticated peer is well formed.
    fn accepts_kcp_packet(
        &self,
        elapsed_ms: u64,
        peer_seq: u64,
        kcp_packet: &Vec<u8>,
    ) -> (yes: bool)
        requires
            self.wf(),
        ensures
            yes == model::kcp_acceptable(self@, elapsed_ms, peer_seq, kcp_packet@),
    {
        if kcp_packet.len() < KCP_OVERHEAD {
            return false;
        }
        let conv_id: ConvId = get_conv(kcp_packet.as_slice());
        if self.tombstones.contains_key(&conv_id) {
            return true;
        }
        match self.sessions.get(&conv_id) {
            Some(session) => {
                assert(self@.sessions.contains_key(conv_id));
                assert(self@.sessions[conv_id] == session@);
                let foreign: bool = match session.peer_seq {
                    Some(bound) => bound != peer_seq,
                    None => false,
                };
                foreign || session.can_take(
                    Ghost(self@.params.kcp),
                    Ghost(conv_id),
                    elapsed_ms,
                    kcp_packet,
                )
            },
            None => {
                assert(!self@.sessions.contains_key(conv_id));
                let session = EndpointSession::new(
                    conv_id,
                    self.kcp_params,
                    SessionPhase::PendingRemote,
                );
                session.can_take(
                    Ghost(self@.params.kcp),
                    Ghost(conv_id),
                    elapsed_ms,
                    kcp_packet,
                )
            },
        }
    }

    fn accepts_received(&self, elapsed_ms: u64, bytes: &Vec<u8>) -> (yes: bool)
        requires
            self.wf(),
        ensures
            yes == model::received_acceptable(self@, elapsed_ms, bytes@),
    {
        proof {
            reveal(model::received_acceptable);
        }
        let envelope = match packet::decode_transport_packet(&self.config.envelope_key, bytes) {
            Ok(envelope) => envelope,
            Err(_) => {
                return true;
            },
        };
        if envelope.route_plan.len() != 0 {
            return true;
        }
        let stamp = envelope.stamp();
        let plain = match self.open_endpoint_message(stamp, &envelope.payload) {
            Some(plain) => plain,
            None => {
                return true;
            },
        };
        if !EndpointMessage::is_encoded(plain.as_slice()) {
            return false;
        }
        if !self.sequence_filter.would_accept(
            self.current_time(elapsed_ms),
            stamp.time,
            stamp.seq_id,
            stamp.seq_no,
        ) {
            return true;
        }
        match EndpointMessage::decode(plain.as_slice()) {
            EndpointMessage::KcpPacket { packet, .. } => {
                self.accepts_kcp_packet(elapsed_ms, stamp.seq_id, &packet)
            },
            _ => true,
        }
    }

    fn accepts_refused(&self, channel_id: ChannelId, bytes: &Vec<u8>) -> (yes: bool)
        requires
            self.wf(),
        ensures
            yes == model::refused_acceptable(self@, channel_id, bytes@),
    {
        proof {
            reveal(model::made_here);
        }
        if !self.route_planner.has_local_channel(channel_id) {
            return false;
        }
        match packet::decode_transport_packet(&self.config.envelope_key, bytes) {
            Ok(envelope) => {
                let mtu: usize = limits::effective_transport_mtu(self.config.route.min_mtu);
                if envelope.payload.len() > mtu - self.scheduled_packet_overhead {
                    return false;
                }
                match self.open_endpoint_message(envelope.stamp(), &envelope.payload) {
                    Some(plain) => EndpointMessage::is_encoded(plain.as_slice()),
                    None => false,
                }
            },
            Err(_) => false,
        }
    }

    /// Whether the event is one that `handle_event` deals with.
    pub fn accepts_event(&self, elapsed_ms: u64, event: &CoreEvent) -> (yes: bool)
        requires
            self.wf(),
        ensures
            yes == model::event_acceptable(self@, elapsed_ms, event@),
    {
        match event {
            CoreEvent::SessionOpen => true,
            CoreEvent::SessionWrite { conv_id, bytes } => {
                match self.sessions.get(conv_id) {
                    None => false,
                    Some(session) => {
                        assert(self@.sessions.contains_key(*conv_id));
                        assert(self@.sessions[*conv_id] == session@);
                        let open: bool = session.phase == SessionPhase::Open;
                        open && (self.write_is_blocked(session, bytes.len())
                            || self.write_is_sendable(bytes.len()))
                    },
                }
            },
            CoreEvent::SessionClose { conv_id, .. } => {
                match self.sessions.get(conv_id) {
                    None => false,
                    Some(session) => session.phase == SessionPhase::Open,
                }
            },
            CoreEvent::TransportPacketSendFailed { channel_id, bytes } => {
                self.accepts_refused(*channel_id, bytes)
            },
            CoreEvent::TransportPacketReceived { bytes, .. } => {
                self.accepts_received(elapsed_ms, bytes)
            },
        }
    }

    /// Whether a write of `len` bytes takes few enough segments for the protocol.
    fn write_is_sendable(&self, len: usize) -> (yes: bool)
        requires
            self.wf(),
        ensures
            yes == (session::message_segments(self@.params.kcp, 1 + len as nat)
                < self@.params.kcp.receive_window && session::message_segments(
                self@.params.kcp,
                1 + len as nat,
            ) < 256),
    {
        let mss: usize = self.kcp_params.mtu - KCP_OVERHEAD;
        proof {
            kcp::laws::lemma_div_bound(len as int, mss as int);
        }
        let pieces: u64 = (len / mss) as u64;
        pieces < 255 && pieces + 1 < self.kcp_params.receive_window as u64
    }

    /// Deals with an event that `handle_event` would; otherwise nothing happens.
    pub fn try_handle_event(
        &mut self,
        elapsed_ms: u64,
        event: CoreEvent,
        actions: &mut Vec<CoreAction>,
    ) -> (result: Option<CoreEventResult>)
        requires
            old(self).wf(),
        ensures
            final(self).wf(),
            final(self)@.params == old(self)@.params,
            model::well_sent(step_of(*old(self), old(actions)@)) ==> model::well_sent(
                step_of(*final(self), final(actions)@),
            ),
            match result {
                Some(handled) => {
                    &&& model::event_acceptable(old(self)@, elapsed_ms, event@)
                    &&& (step_of(*final(self), final(actions)@), handled) == model::event_handled(
                        step_of(*old(self), old(actions)@),
                        elapsed_ms,
                        event@,
                    )
                },
                None => {
                    &&& !model::event_acceptable(old(self)@, elapsed_ms, event@)
                    &&& *final(self) == *old(self)
                    &&& *final(actions) == *old(actions)
                },
            },
    {
        if self.accepts_event(elapsed_ms, &event) {
            Some(self.handle_event(elapsed_ms, event, actions))
        } else {
            None
        }
    }

    // -----------------------------------------------------------------------
    // Time
    // -----------------------------------------------------------------------

    /// Gives up the samples whose deadline has passed.
    fn expire_feedback(&mut self, elapsed_ms: u64)
        requires
            old(self).wf(),
        ensures
            final(self).wf(),
            final(self)@ == model::samples_expired(
                old(self)@,
                elapsed_ms,
                ordered::ascending_pairs(old(self)@.outstanding.dom()),
            ),
            final(self)@.params == old(self)@.params,
            routing::same_topology(old(self)@.planner, final(self)@.planner),
    {
        assert(self@.outstanding.dom() =~= self.outstanding@.dom());
        let ids = ordered::sorted_pairs(&self.outstanding);
        let mut i: usize = 0;
        proof {
            assert(ids@.skip(0) =~= ids@);
            assert forall|j: int| 0 <= j < ids@.len() implies self@.outstanding.contains_key(
                #[trigger] ids@[j],
            ) by {
                assert(ids@.contains(ids@[j]));
                assert(self.outstanding@.dom().contains(ids@[j]));
            }
        }
        while i < ids.len()
            invariant
                self.wf(),
                self@.params == old(self)@.params,
                routing::same_topology(old(self)@.planner, self@.planner),
                i <= ids@.len(),
                ordered::is_ascending_pairs(ids@, old(self).outstanding@.dom()),
                forall|j: int|
                    i <= j < ids@.len() ==> self@.outstanding.contains_key(#[trigger] ids@[j]),
                model::samples_expired(self@, elapsed_ms, ids@.skip(i as int))
                    == model::samples_expired(old(self)@, elapsed_ms, ids@),
            decreases ids@.len() - i,
        {
            let ghost before = self@;
            let id: (u64, u64) = ids[i];
            proof {
                reveal(model::samples_expired);
                assert(before.outstanding.contains_key(ids@[i as int]));
                assert(ids@.skip(i as int)[0] == id);
                assert(ids@.skip(i as int).drop_first() =~= ids@.skip(i + 1));
            }
            if let Some(sample) = self.outstanding.remove(&id) {
                assert(before.outstanding[id] == sample@);
                if elapsed_ms < sample.deadline {
                    self.outstanding.insert(id, sample);
                    assert(self@.outstanding =~= before.outstanding);
                    assert(self@.sessions =~= before.sessions);
                    assert(self@ =~= before);
                } else {
                    assert(self@.outstanding =~= before.outstanding.remove(id));
                    assert(self@.sessions =~= before.sessions);
                    self.route_planner.note_feedback(&sample.route_plan, sample.sent_at, false);
                    proof {
                        laws::lemma_planner_kept(
                            before,
                            self.route_planner@,
                            before.outstanding.remove(id),
                        );
                        routing::lemma_same_topology_trans(
                            old(self)@.planner,
                            before.planner,
                            self.route_planner@,
                        );
                        assert forall|j: int|
                            i < j < ids@.len() implies self@.outstanding.contains_key(
                            #[trigger] ids@[j],
                        ) by {
                            assert(ordered::pair_less(ids@[i as int], ids@[j]));
                        }
                    }
                }
            }
            i = i + 1;
        }
        proof {
            reveal(model::samples_expired);
            assert(ids@.skip(i as int) =~= Seq::empty());
        }
    }

    /// Resets the sessions that are bound to the sender `seq_id`.
    fn reset_sessions(&mut self, elapsed_ms: u64, seq_id: u64, actions: &mut Vec<CoreAction>)
        requires
            old(self).wf(),
        ensures
            final(self).wf(),
            step_of(*final(self), final(actions)@) == model::sessions_reset(
                step_of(*old(self), old(actions)@),
                elapsed_ms,
                seq_id,
                ordered::ascending(old(self)@.sessions.dom()),
            ),
            final(self)@.params == old(self)@.params,
            model::well_sent(step_of(*old(self), old(actions)@)) ==> model::well_sent(
                step_of(*final(self), final(actions)@),
            ),
    {
        assert(self@.sessions.dom() =~= self.sessions@.dom());
        let convs = ordered::sorted_keys(&self.sessions);
        let mut i: usize = 0;
        assert(convs@.skip(0) =~= convs@);
        while i < convs.len()
            invariant
                self.wf(),
                self@.params == old(self)@.params,
                model::well_sent(step_of(*old(self), old(actions)@)) ==> model::well_sent(
                    step_of(*self, actions@),
                ),
                i <= convs@.len(),
                model::sessions_reset(
                    step_of(*self, actions@),
                    elapsed_ms,
                    seq_id,
                    convs@.skip(i as int),
                ) == model::sessions_reset(
                    step_of(*old(self), old(actions)@),
                    elapsed_ms,
                    seq_id,
                    convs@,
                ),
            decreases convs@.len() - i,
        {
            let ghost before = self@;
            let conv_id: u64 = convs[i];
            proof {
                reveal(model::sessions_reset);
                assert(convs@.skip(i as int)[0] == conv_id);
                assert(convs@.skip(i as int).drop_first() =~= convs@.skip(i + 1));
            }
            if let Some(session) = self.take_session(conv_id) {
                let bound: bool = match session.peer_seq {
                    Some(id) => id == seq_id,
                    None => false,
                };
                if bound {
                    if session.phase != SessionPhase::PendingRemote {
                        let action = CoreAction::CloseSession {
                            conv_id,
                            reason: CloseReason::Reset,
                        };
                        proof {
                            machine::lemma_action_push(actions@, action);
                            if model::well_sent(step_of(*self, actions@)) {
                                laws::lemma_sent_push(
                                    self@.params,
                                    self@.planner,
                                    machine::action_states(actions@),
                                    action@,
                                );
                            }
                        }
                        actions.push(action);
                    }
                    self.bury(conv_id, elapsed_ms);
                } else {
                    self.put_session(conv_id, session);
                    assert(self@.sessions =~= before.sessions);
                    assert(self@ =~= before);
                }
            }
            i = i + 1;
        }
        proof {
            reveal(model::sessions_reset);
            assert(convs@.skip(i as int) =~= Seq::empty());
        }
    }

    fn expire_sequences(&mut self, elapsed_ms: u64, actions: &mut Vec<CoreAction>)
        requires
            old(self).wf(),
        ensures
            final(self).wf(),
            step_of(*final(self), final(actions)@) == model::senders_expired(
                step_of(*old(self), old(actions)@),
                elapsed_ms,
            ),
            final(self)@.params == old(self)@.params,
            model::well_sent(step_of(*old(self), old(actions)@)) ==> model::well_sent(
                step_of(*final(self), final(actions)@),
            ),
    {
        let ghost start = self@;
        let current_time: u32 = self.current_time(elapsed_ms);
        let expired = self.sequence_filter.remove_expired(current_time, SEQUENCE_SOFT_CAP);
        let ghost first = step_of(*self, actions@);
        proof {
            reveal(model::senders_expired);
            assert(self@ =~= (EndpointState { filter: self@.filter, ..start }));
            assert(expired@.skip(0) =~= expired@);
        }
        let mut i: usize = 0;
        while i < expired.len()
            invariant
                self.wf(),
                self@.params == old(self)@.params,
                model::well_sent(step_of(*old(self), old(actions)@)) ==> model::well_sent(
                    step_of(*self, actions@),
                ),
                i <= expired@.len(),
                model::senders_reset(
                    step_of(*self, actions@),
                    elapsed_ms,
                    expired@.skip(i as int),
                ) == model::senders_reset(first, elapsed_ms, expired@),
            decreases expired@.len() - i,
        {
            proof {
                reveal(model::senders_reset);
                assert(expired@.skip(i as int)[0] == expired@[i as int]);
                assert(expired@.skip(i as int).drop_first() =~= expired@.skip(i + 1));
            }
            self.reset_sessions(elapsed_ms, expired[i], actions);
            i = i + 1;
        }
        proof {
            reveal(model::senders_reset);
            assert(expired@.skip(i as int) =~= Seq::empty());
        }
    }

    /// Forgets the closed sessions whose time is over.
    fn expire_tombstones(&mut self, elapsed_ms: u64)
        requires
            old(self).wf(),
        ensures
            final(self).wf(),
            final(self)@ == (EndpointState {
                tombstones: model::tombstones_kept(old(self)@.tombstones, elapsed_ms),
                ..old(self)@
            }),
    {
        let ghost start = self@.tombstones;
        let convs = ordered::sorted_keys(&self.tombstones);
        let mut i: usize = 0;
        while i < convs.len()
            invariant
                self.wf(),
                self@ == (EndpointState { tombstones: self@.tombstones, ..old(self)@ }),
                start == old(self)@.tombstones,
                i <= convs@.len(),
                ordered::is_ascending(convs@, start.dom()),
                self@.tombstones.submap_of(start),
                forall|conv: u64| #[trigger]
                    start.contains_key(conv) ==> (self@.tombstones.contains_key(conv) <==> (
                    elapsed_ms < start[conv] || !convs@.take(i as int).contains(conv))),
            decreases convs@.len() - i,
        {
            let ghost before = self@;
            let conv_id: u64 = convs[i];
            proof {
                assert(convs@.contains(convs@[i as int]));
                assert(start.dom().contains(conv_id));
                assert(!convs@.take(i as int).contains(conv_id)) by {
                    if convs@.take(i as int).contains(conv_id) {
                        let j = choose|j: int|
                            0 <= j < i && convs@.take(i as int)[j] == conv_id;
                        assert(convs@[j] < convs@[i as int]);
                    }
                }
                assert(before.tombstones.contains_key(conv_id));
            }
            if let Some(expire_at) = self.tombstones.remove(&conv_id) {
                if elapsed_ms < expire_at {
                    self.tombstones.insert(conv_id, expire_at);
                    assert(self@.tombstones =~= before.tombstones);
                }
            }
            proof {
                assert(self@.outstanding =~= before.outstanding);
                assert(self@.sessions =~= before.sessions);
                assert forall|conv: u64| #[trigger] start.contains_key(conv) implies (
                self@.tombstones.contains_key(conv) <==> (elapsed_ms < start[conv]
                    || !convs@.take(i + 1).contains(conv))) by {
                    let before_i = convs@.take(i as int);
                    assert(convs@.take(i + 1) =~= before_i.push(conv_id));
                    assert(before_i.push(conv_id)[i as int] == conv_id);
                    if before_i.contains(conv) {
                        let j = choose|j: int| 0 <= j < before_i.len() && before_i[j] == conv;
                        assert(before_i.push(conv_id)[j] == conv);
                    }
                }
            }
            i = i + 1;
        }
        proof {
            assert(convs@.take(i as int) =~= convs@);
            let kept = model::tombstones_kept(start, elapsed_ms);
            assert forall|conv: u64| self@.tombstones.contains_key(conv) == #[trigger] kept.contains_key(
                conv,
            ) by {
                assert(start.dom().contains(conv) == convs@.contains(conv));
                assert(self@.tombstones.contains_key(conv) ==> start.contains_key(conv));
            }
            assert forall|conv: u64| kept.contains_key(conv) implies self@.tombstones[conv]
                == #[trigger] kept[conv] by {
                assert(self@.tombstones.dom().contains(conv));
                assert(start.dom().contains(conv) && start[conv] == self@.tombstones[conv]);
            }
            assert(self@.tombstones.dom() =~= kept.dom());
            assert(self@.tombstones =~= kept);
        }
    }

    /// Runs the timers of one session.
    fn poll_session(
        &mut self,
        elapsed_ms: u64,
        conv_id: ConvId,
        actions: &mut Vec<CoreAction>,
    )
        requires
            old(self).wf(),
            old(self)@.sessions.contains_key(conv_id),
        ensures
            final(self).wf(),
            step_of(*final(self), final(actions)@) == model::session_polled(
                step_of(*old(self), old(actions)@),
                elapsed_ms,
                conv_id,
            ),
            final(self)@.params == old(self)@.params,
            model::well_sent(step_of(*old(self), old(actions)@)) ==> model::well_sent(
                step_of(*final(self), final(actions)@),
            ),
            forall|conv: u64|
                conv != conv_id ==> #[trigger] final(self)@.sessions.contains_key(conv)
                    == old(self)@.sessions.contains_key(conv),
    {
        proof {
            reveal(model::session_polled);
        }
        self.queue_local_close(elapsed_ms, conv_id, actions);
        let ghost announced = self@;
        assert(announced.sessions.contains_key(conv_id));
        if let Some(mut session) = self.take_session(conv_id) {
            let packets = session.poll(Ghost(announced.params.kcp), Ghost(conv_id), elapsed_ms);
            let ghost kept = session@;
            self.put_session(conv_id, session);
            proof {
                assert(self@.sessions =~= announced.sessions.insert(conv_id, kept));
                assert(self@ =~= model::put_session(announced, conv_id, kept));
            }
            self.send_kcp_packets(elapsed_ms, packets, actions);
        }
        self.finish_closed_session(elapsed_ms, conv_id, actions);
    }

    /// Sends a keepalive if nothing else has been sent for the interval.
    fn keep_alive(&mut self, elapsed_ms: u64, actions: &mut Vec<CoreAction>)
        requires
            old(self).wf(),
        ensures
            final(self).wf(),
            step_of(*final(self), final(actions)@) == model::kept_alive(
                step_of(*old(self), old(actions)@),
                elapsed_ms,
            ),
            final(self)@.params == old(self)@.params,
            model::well_sent(step_of(*old(self), old(actions)@)) ==> model::well_sent(
                step_of(*final(self), final(actions)@),
            ),
            old(self)@.params.keepalive_interval_ms != 0 && elapsed_ms
                >= old(self)@.next_keepalive_at ==> match routing::planned(
                old(self)@.planner,
                elapsed_ms,
                (17 + old(self)@.params.scheduled_packet_overhead) as usize,
                elapsed_ms >= old(self)@.next_feedback_at,
            ).1 {
                Some(_) => {
                    &&& final(actions)@.len() == old(actions)@.len() + 1
                    &&& model::carries(
                        old(self)@.params,
                        final(actions)@.last()@,
                        wire::EndpointMessageState::KeepAlive {
                            reply_depth: if elapsed_ms >= old(self)@.next_feedback_at {
                                1
                            } else {
                                0
                            },
                        },
                    )
                },
                None => final(actions)@ == old(actions)@,
            },
    {
        proof {
            reveal(model::kept_alive);
        }
        if self.config.keepalive_interval_ms != 0 && elapsed_ms >= self.next_keepalive_at {
            let sample: bool = self.feedback_due(elapsed_ms);
            let reply_depth: u8 = if sample {
                1
            } else {
                0
            };
            let message = EndpointMessage::KeepAlive { reply_depth };
            self.send_endpoint_message(elapsed_ms, &message, sample, actions);
            let ghost sent = self@;
            self.next_keepalive_at = later(elapsed_ms, self.config.keepalive_interval_ms as u64);
            assert(self@ =~= (EndpointState {
                next_keepalive_at: self.next_keepalive_at,
                ..sent
            }));
        }
    }

    /// Lets time pass: timeouts, retransmissions, expiry and keepalive.
    pub fn poll(&mut self, elapsed_ms: u64, actions: &mut Vec<CoreAction>)
        requires
            old(self).wf(),
        ensures
            final(self).wf(),
            final(self)@.params == old(self)@.params,
            model::well_sent(step_of(*old(self), old(actions)@)) ==> model::well_sent(
                step_of(*final(self), final(actions)@),
            ),
            step_of(*final(self), final(actions)@) == model::polled(
                step_of(*old(self), old(actions)@),
                elapsed_ms,
            ),
    {
        self.expire_feedback(elapsed_ms);
        proof {
            if model::well_sent(step_of(*old(self), old(actions)@)) {
                laws::lemma_sent_topology(
                    self@.params,
                    old(self)@.planner,
                    self@.planner,
                    machine::action_states(actions@),
                );
            }
        }
        self.expire_sequences(elapsed_ms, actions);
        self.expire_tombstones(elapsed_ms);
        let ghost start = step_of(*self, actions@);
        let ghost before = self@;
        assert(self@.sessions.dom() =~= self.sessions@.dom());
        let convs = ordered::sorted_keys(&self.sessions);
        let mut i: usize = 0;
        proof {
            assert(convs@.skip(0) =~= convs@);
            assert forall|j: int| 0 <= j < convs@.len() implies self@.sessions.contains_key(
                #[trigger] convs@[j],
            ) by {
                assert(convs@.contains(convs@[j]));
                assert(self.sessions@.dom().contains(convs@[j]));
            }
        }
        while i < convs.len()
            invariant
                self.wf(),
                self@.params == old(self)@.params,
                model::well_sent(step_of(*old(self), old(actions)@)) ==> model::well_sent(
                    step_of(*self, actions@),
                ),
                i <= convs@.len(),
                ordered::is_ascending(convs@, before.sessions.dom()),
                forall|j: int|
                    i <= j < convs@.len() ==> self@.sessions.contains_key(#[trigger] convs@[j]),
                model::sessions_polled(
                    step_of(*self, actions@),
                    elapsed_ms,
                    convs@.skip(i as int),
                ) == model::sessions_polled(start, elapsed_ms, convs@),
            decreases convs@.len() - i,
        {
            proof {
                reveal(model::sessions_polled);
                assert(self@.sessions.contains_key(convs@[i as int]));
                assert(convs@.skip(i as int)[0] == convs@[i as int]);
                assert(convs@.skip(i as int).drop_first() =~= convs@.skip(i + 1));
            }
            self.poll_session(elapsed_ms, convs[i], actions);
            proof {
                assert forall|j: int| i < j < convs@.len() implies self@.sessions.contains_key(
                    #[trigger] convs@[j],
                ) by {
                    assert(convs@[i as int] < convs@[j]);
                }
            }
            i = i + 1;
        }
        proof {
            reveal(model::sessions_polled);
            assert(convs@.skip(i as int) =~= Seq::empty());
        }
        self.keep_alive(elapsed_ms, actions);
    }

    /// The earliest deadline of a session.
    fn session_deadline(&self, elapsed_ms: u64) -> (deadline: u64)
        requires
            self.wf(),
        ensures
            forall|conv: u64| #[trigger]
                self@.sessions.contains_key(conv) ==> deadline <= session::session_deadline(
                    self@.sessions[conv],
                    elapsed_ms,
                ),
            deadline == u64::MAX || exists|conv: u64| #[trigger]
                self@.sessions.contains_key(conv) && deadline == session::session_deadline(
                    self@.sessions[conv],
                    elapsed_ms,
                ),
    {
        let convs = ordered::sorted_keys(&self.sessions);
        let mut deadline: u64 = u64::MAX;
        let mut i: usize = 0;
        while i < convs.len()
            invariant
                self.wf(),
                ordered::is_ascending(convs@, self.sessions@.dom()),
                i <= convs@.len(),
                forall|j: int|
                    0 <= j < i ==> deadline <= session::session_deadline(
                        self@.sessions[#[trigger] convs@[j]],
                        elapsed_ms,
                    ),
                deadline == u64::MAX || exists|conv: u64| #[trigger]
                    self@.sessions.contains_key(conv) && deadline == session::session_deadline(
                        self@.sessions[conv],
                        elapsed_ms,
                    ),
            decreases convs@.len() - i,
        {
            let conv_id: u64 = convs[i];
            proof {
                assert(convs@.contains(convs@[i as int]));
                assert(self.sessions@.dom().contains(conv_id));
                assert(self@.sessions.contains_key(conv_id));
            }
            if let Some(session) = self.sessions.get(&conv_id) {
                assert(self@.sessions[conv_id] == session@);
                let at: u64 = session.next_deadline(
                    Ghost(self@.params.kcp),
                    Ghost(conv_id),
                    elapsed_ms,
                );
                if at < deadline {
                    deadline = at;
                }
            }
            i = i + 1;
        }
        proof {
            assert forall|conv: u64| #[trigger] self@.sessions.contains_key(conv) implies deadline
                <= session::session_deadline(self@.sessions[conv], elapsed_ms) by {
                assert(self.sessions@.dom().contains(conv));
                assert(convs@.contains(conv));
            }
        }
        deadline
    }

    /// When the first closed session can be forgotten.
    fn tombstone_deadline(&self) -> (deadline: u64)
        requires
            self.wf(),
        ensures
            forall|conv: u64| #[trigger]
                self@.tombstones.contains_key(conv) ==> deadline <= self@.tombstones[conv],
            deadline == u64::MAX || exists|conv: u64| #[trigger]
                self@.tombstones.contains_key(conv) && deadline == self@.tombstones[conv],
    {
        let convs = ordered::sorted_keys(&self.tombstones);
        let mut deadline: u64 = u64::MAX;
        let mut i: usize = 0;
        while i < convs.len()
            invariant
                self.wf(),
                ordered::is_ascending(convs@, self@.tombstones.dom()),
                i <= convs@.len(),
                forall|j: int|
                    0 <= j < i ==> deadline <= self@.tombstones[#[trigger] convs@[j]],
                deadline == u64::MAX || exists|conv: u64| #[trigger]
                    self@.tombstones.contains_key(conv) && deadline == self@.tombstones[conv],
            decreases convs@.len() - i,
        {
            let conv_id: u64 = convs[i];
            proof {
                assert(convs@.contains(convs@[i as int]));
                assert(self@.tombstones.dom().contains(conv_id));
            }
            if let Some(at) = self.tombstones.get(&conv_id) {
                if *at < deadline {
                    deadline = *at;
                }
            }
            i = i + 1;
        }
        proof {
            assert forall|conv: u64| #[trigger] self@.tombstones.contains_key(conv) implies deadline
                <= self@.tombstones[conv] by {
                assert(self@.tombstones.dom().contains(conv));
                assert(convs@.contains(conv));
            }
        }
        deadline
    }

    /// When the first sample is given up.
    fn sample_deadline(&self) -> (deadline: u64)
        requires
            self.wf(),
        ensures
            forall|id: (u64, u64)| #[trigger]
                self@.outstanding.contains_key(id) ==> deadline <= self@.outstanding[id].deadline,
            deadline == u64::MAX || exists|id: (u64, u64)| #[trigger]
                self@.outstanding.contains_key(id) && deadline == self@.outstanding[id].deadline,
    {
        let ids = ordered::sorted_pairs(&self.outstanding);
        let mut deadline: u64 = u64::MAX;
        let mut i: usize = 0;
        while i < ids.len()
            invariant
                self.wf(),
                ordered::is_ascending_pairs(ids@, self.outstanding@.dom()),
                i <= ids@.len(),
                forall|j: int|
                    0 <= j < i ==> deadline <= self@.outstanding[#[trigger] ids@[j]].deadline,
                deadline == u64::MAX || exists|id: (u64, u64)| #[trigger]
                    self@.outstanding.contains_key(id) && deadline
                        == self@.outstanding[id].deadline,
            decreases ids@.len() - i,
        {
            let id: (u64, u64) = ids[i];
            proof {
                assert(ids@.contains(ids@[i as int]));
                assert(self.outstanding@.dom().contains(id));
                assert(self@.outstanding.contains_key(id));
            }
            if let Some(sample) = self.outstanding.get(&id) {
                assert(self@.outstanding[id] == sample@);
                if sample.deadline < deadline {
                    deadline = sample.deadline;
                }
            }
            i = i + 1;
        }
        proof {
            assert forall|id: (u64, u64)| #[trigger] self@.outstanding.contains_key(
                id,
            ) implies deadline <= self@.outstanding[id].deadline by {
                assert(self.outstanding@.dom().contains(id));
                assert(ids@.contains(id));
            }
        }
        deadline
    }

    /// When the next window of a silent sender can go.
    fn window_deadline(&self, elapsed_ms: u64) -> (deadline: u64)
        requires
            self.wf(),
        ensures
            deadline == model::window_deadline(self@, elapsed_ms),
    {
        match self.sequence_filter.next_expiry_delay_ms(
            self.current_time(elapsed_ms),
            SEQUENCE_SOFT_CAP,
        ) {
            None => u64::MAX,
            Some(delay) => {
                let tick_offset: u64 = self.config.boot_time_ms.saturating_add(elapsed_ms) % 1024;
                later(elapsed_ms, delay.saturating_sub(tick_offset))
            },
        }
    }

    /// The earliest time at which the endpoint wants to be polled; `u64::MAX` if there is
    /// none.
    pub fn next_deadline(&self, elapsed_ms: u64) -> (deadline: u64)
        requires
            self.wf(),
        ensures
            model::not_later(self@, elapsed_ms, deadline),
            model::wants_poll_at(self@, elapsed_ms, deadline),
    {
        let mut deadline: u64 = self.session_deadline(elapsed_ms);
        let tombstone: u64 = self.tombstone_deadline();
        if tombstone < deadline {
            deadline = tombstone;
        }
        let sample: u64 = self.sample_deadline();
        if sample < deadline {
            deadline = sample;
        }
        if self.config.keepalive_interval_ms != 0 && self.next_keepalive_at < deadline {
            deadline = self.next_keepalive_at;
        }
        let window: u64 = self.window_deadline(elapsed_ms);
        if window < deadline {
            deadline = window;
        }
        deadline
    }
}

/// The plan behind its first channel.
fn plan_tail(plan: &Vec<ChannelId>) -> (tail: Vec<ChannelId>)
    requires
        plan@.len() > 0,
    ensures
        tail@ == plan@.drop_first(),
{
    let mut tail: Vec<ChannelId> = Vec::new();
    let mut i: usize = 1;
    while i < plan.len()
        invariant
            1 <= i <= plan@.len(),
            tail@ == plan@.subrange(1, i as int),
        decreases plan@.len() - i,
    {
        tail.push(plan[i]);
        i = i + 1;
        assert(tail@ =~= plan@.subrange(1, i as int));
    }
    assert(tail@ =~= plan@.drop_first());
    tail
}

} // verus!
