//! Earliest-arrival route planning on a directed acyclic graph.
use vstd::prelude::*;

use crate::limits::{LOCAL_COOLDOWN_INITIAL_MS, LOCAL_COOLDOWN_MAX_MS};
use crate::machine::ChannelId;

verus! {

pub const DEFAULT_ROUTE_CAPACITY_KBPS: u32 = 50_000;

pub const DEFAULT_ROUTE_LATENCY_MS: u32 = 50;

/// One millisecond of virtual time.
pub const FIXED_ONE: u64 = 65536;

/// A loss score of one.
pub const LOSS_ONE: u32 = 65535;

#[derive(Clone, PartialEq, Eq)]
pub struct RouteConfig {
    pub graph: RouteGraph,
    pub min_mtu: u32,
    pub feedback_interval_ms: u32,
    pub feedback_timeout_ms: u32,
}

#[derive(Clone, PartialEq, Eq)]
pub struct RouteGraph {
    pub nodes: Vec<RouteNode>,
}

#[derive(Clone, PartialEq, Eq)]
pub struct RouteNode {
    pub edges: Vec<RouteEdge>,
}

#[derive(Debug, Clone, Copy, PartialEq, Eq, Structural)]
pub struct RouteEdge {
    pub channel_id: ChannelId,
    pub next: u32,
    pub capacity_hint_kbps: u32,
    pub latency_hint_ms: u32,
}

impl View for RouteGraph {
    type V = Seq<Seq<RouteEdge>>;

    open spec fn view(&self) -> Seq<Seq<RouteEdge>> {
        Seq::new(self.nodes@.len(), |i: int| self.nodes@[i].edges@)
    }
}

/// The nodes are in topological order, the last one is the destination, and no node has
/// two edges with the same channel.
pub open spec fn graph_ordered(g: Seq<Seq<RouteEdge>>) -> bool {
    &&& g.len() >= 1
    &&& forall|v: int, k: int|
        0 <= v < g.len() && 0 <= k < g[v].len() ==> v < (#[trigger] g[v][k]).next < g.len()
    &&& forall|v: int, j: int, k: int|
        0 <= v < g.len() && 0 <= j < k < g[v].len() ==> (#[trigger] g[v][j]).channel_id != (
        #[trigger] g[v][k]).channel_id
}

/// Whether the edges of a graph lead on, and each channel of a node is used once.
pub fn is_ordered(graph: &RouteGraph) -> (yes: bool)
    ensures
        yes == graph_ordered(graph@),
{
    let n: usize = graph.nodes.len();
    if n == 0 {
        return false;
    }
    let ghost g = graph@;
    let mut v: usize = 0;
    while v < n
        invariant
            n == graph.nodes@.len() == g.len(),
            g == graph@,
            v <= n,
            forall|u: int, k: int|
                0 <= u < v && 0 <= k < g[u].len() ==> u < (#[trigger] g[u][k]).next < g.len(),
            forall|u: int, j: int, k: int|
                0 <= u < v && 0 <= j < k < g[u].len() ==> (#[trigger] g[u][j]).channel_id != (
                #[trigger] g[u][k]).channel_id,
        decreases n - v,
    {
        let count: usize = graph.nodes[v].edges.len();
        assert(g[v as int] == graph.nodes@[v as int].edges@);
        let mut k: usize = 0;
        while k < count
            invariant
                n == graph.nodes@.len() == g.len(),
                g == graph@,
                v < n,
                k <= count,
                count == graph.nodes@[v as int].edges@.len(),
                g[v as int] == graph.nodes@[v as int].edges@,
                forall|i: int| 0 <= i < k ==> v < (#[trigger] g[v as int][i]).next < g.len(),
                forall|i: int, j: int|
                    0 <= i < j < k ==> (#[trigger] g[v as int][i]).channel_id != (
                    #[trigger] g[v as int][j]).channel_id,
            decreases count - k,
        {
            let edge: RouteEdge = graph.nodes[v].edges[k];
            assert(edge == g[v as int][k as int]);
            if edge.next as usize <= v || edge.next as usize >= n {
                return false;
            }
            let mut j: usize = 0;
            while j < k
                invariant
                    g == graph@,
                    n == graph.nodes@.len() == g.len(),
                    v < n,
                    j <= k < count,
                    count == graph.nodes@[v as int].edges@.len(),
                    g[v as int] == graph.nodes@[v as int].edges@,
                    edge == g[v as int][k as int],
                    forall|i: int|
                        0 <= i < j ==> (#[trigger] g[v as int][i]).channel_id != edge.channel_id,
                decreases k - j,
            {
                if graph.nodes[v].edges[j].channel_id == edge.channel_id {
                    assert(g[v as int][j as int].channel_id == g[v as int][k as int].channel_id);
                    return false;
                }
                j = j + 1;
            }
            k = k + 1;
        }
        v = v + 1;
    }
    true
}

/// An edge by its place in the graph.
#[derive(Debug, Clone, Copy, PartialEq, Eq, Structural)]
pub struct EdgeId {
    pub node: usize,
    pub edge: usize,
}

/// An edge with what is known of it at run time.
#[derive(Debug, Clone, Copy, PartialEq, Eq, Structural)]
pub struct Edge {
    pub channel_id: ChannelId,
    pub next: usize,
    pub capacity_kbps: u32,
    pub latency_ms: u32,
    /// The virtual time up to which the edge is taken.
    pub virtual_free_at: u64,
    /// The failure score, from 0 to `LOSS_ONE`.
    pub loss: u32,
    pub cooldown_until: u64,
    pub retry_delay_ms: u64,
    pub last_sampled: Option<u64>,
    pub last_observation_at: Option<u64>,
}

/// The edges of each node.
pub type PlanGraph = Seq<Seq<Edge>>;

// ---------------------------------------------------------------------------
// Model
// ---------------------------------------------------------------------------

/// Virtual time saturates.
pub open spec fn saturated(t: int) -> u64 {
    if t <= u64::MAX {
        t as u64
    } else {
        u64::MAX
    }
}

pub open spec fn new_edge(edge: RouteEdge) -> Edge {
    Edge {
        channel_id: edge.channel_id,
        next: edge.next as usize,
        capacity_kbps: if edge.capacity_hint_kbps == 0 {
            DEFAULT_ROUTE_CAPACITY_KBPS
        } else {
            edge.capacity_hint_kbps
        },
        latency_ms: if edge.latency_hint_ms == 0 {
            DEFAULT_ROUTE_LATENCY_MS
        } else {
            edge.latency_hint_ms
        },
        virtual_free_at: 0,
        loss: 0,
        cooldown_until: 0,
        retry_delay_ms: LOCAL_COOLDOWN_INITIAL_MS,
        last_sampled: None,
        last_observation_at: None,
    }
}

pub open spec fn new_graph(g: Seq<Seq<RouteEdge>>) -> PlanGraph {
    Seq::new(g.len(), |v: int| Seq::new(g[v].len(), |k: int| new_edge(g[v][k])))
}

/// The service penalty of an edge: `1 + 15 * (loss / LOSS_ONE)^2`, in
/// units of `FIXED_ONE`.
pub open spec fn penalty(loss: u32) -> int {
    65536 + 15 * (loss * loss) * 65536 / 4_294_836_225
}

/// `a / b`, rounded up.
pub open spec fn div_up(a: int, b: int) -> int {
    if a <= 0 {
        0
    } else {
        (a - 1) / b + 1
    }
}

/// The virtual time that `bytes` take on an edge: their bits over its kilobits per second
/// give milliseconds, and the penalty multiplies them.
pub open spec fn service_time(edge: Edge, bytes: nat) -> u64 {
    saturated(div_up(bytes * 8 * penalty(edge.loss), edge.capacity_kbps as int))
}

/// When a packet that is ready at `ready` has left the edge behind it.
pub open spec fn finished_at(edge: Edge, ready: u64, bytes: nat) -> u64 {
    let start = if ready >= edge.virtual_free_at {
        ready
    } else {
        edge.virtual_free_at
    };
    saturated(start + service_time(edge, bytes))
}

/// When a packet that is ready at `ready` arrives at the end of the edge.
pub open spec fn arrives_at(edge: Edge, ready: u64, bytes: nat) -> u64 {
    saturated(finished_at(edge, ready, bytes) + edge.latency_ms * 65536)
}

/// The edge takes packets now.
pub open spec fn allowed(edge: Edge, elapsed_ms: u64) -> bool {
    elapsed_ms >= edge.cooldown_until
}

pub open spec fn edge_of(g: PlanGraph, id: EdgeId) -> Edge {
    g[id.node as int][id.edge as int]
}

pub open spec fn is_edge(g: PlanGraph, id: EdgeId) -> bool {
    id.node < g.len() && id.edge < g[id.node as int].len()
}

/// The earliest arrival found so far, and how it was reached.
#[derive(Clone, Copy)]
pub struct Label {
    pub arrival: u64,
    /// The edge, and whether the forced edge was behind the packet before it.
    pub from: Option<(bool, EdgeId)>,
}

/// One label per node for paths without the forced edge, and one for paths through it.
#[verifier::ext_equal]
pub struct TableState {
    pub plain: Seq<Label>,
    pub through: Seq<Label>,
}

pub open spec fn label(t: TableState, through: bool, v: int) -> Label {
    if through {
        t.through[v]
    } else {
        t.plain[v]
    }
}

pub open spec fn relabel(t: TableState, through: bool, v: int, l: Label) -> TableState {
    if through {
        TableState { through: t.through.update(v, l), ..t }
    } else {
        TableState { plain: t.plain.update(v, l), ..t }
    }
}

/// What a search looks for.
#[derive(Clone, Copy)]
pub struct Search {
    pub elapsed_ms: u64,
    pub bytes: usize,
    pub forced: Option<EdgeId>,
}

pub open spec fn no_label() -> Label {
    Label { arrival: u64::MAX, from: None }
}

pub open spec fn search_start(q: Search) -> u64 {
    saturated(q.elapsed_ms * 65536)
}

pub open spec fn first_table(n: nat, q: Search) -> TableState {
    TableState {
        plain: Seq::new(
            n,
            |v: int|
                if v == 0 {
                    Label { arrival: search_start(q), from: None }
                } else {
                    no_label()
                },
        ),
        through: Seq::new(n, |v: int| no_label()),
    }
}

/// Tries one edge.
pub open spec fn relax(
    g: PlanGraph,
    q: Search,
    t: TableState,
    through: bool,
    id: EdgeId,
) -> TableState {
    let edge = edge_of(g, id);
    let here = label(t, through, id.node as int).arrival;
    if here == u64::MAX || !allowed(edge, q.elapsed_ms) {
        t
    } else {
        let after = through || q.forced == Some(id);
        let arrival = arrives_at(edge, here, q.bytes as nat);
        if arrival < label(t, after, edge.next as int).arrival {
            relabel(t, after, edge.next as int, Label { arrival, from: Some((through, id)) })
        } else {
            t
        }
    }
}

/// Tries the first `k` edges of a node.
pub open spec fn relax_edges(
    g: PlanGraph,
    q: Search,
    t: TableState,
    through: bool,
    v: int,
    k: nat,
) -> TableState
    decreases k,
{
    if k == 0 {
        t
    } else {
        relax(
            g,
            q,
            relax_edges(g, q, t, through, v, (k - 1) as nat),
            through,
            EdgeId { node: v as usize, edge: (k - 1) as usize },
        )
    }
}

/// Tries all edges of a node.
pub open spec fn relax_node(g: PlanGraph, q: Search, t: TableState, v: int) -> TableState {
    let plain = relax_edges(g, q, t, false, v, g[v].len());
    if q.forced is Some {
        relax_edges(g, q, plain, true, v, g[v].len())
    } else {
        plain
    }
}

/// Tries all edges of the first `n` nodes.
pub open spec fn relax_nodes(g: PlanGraph, q: Search, n: nat) -> TableState
    decreases n,
{
    if n == 0 {
        first_table(g.len(), q)
    } else {
        relax_node(g, q, relax_nodes(g, q, (n - 1) as nat), n - 1)
    }
}

/// The way back from a label to the source.
pub open spec fn trace(t: TableState, through: bool, v: int) -> Option<Seq<EdgeId>>
    decreases v,
{
    if v <= 0 {
        Some(Seq::empty())
    } else {
        match label(t, through, v).from {
            None => None,
            Some((before, id)) => if id.node < v {
                match trace(t, before, id.node as int) {
                    None => None,
                    Some(path) => Some(path.push(id)),
                }
            } else {
                None
            },
        }
    }
}

/// The path with the earliest arrival; among equal ones, that of the earlier edges.
pub open spec fn best_path(g: PlanGraph, q: Search) -> Option<Seq<EdgeId>> {
    let destination = g.len() - 1;
    let t = relax_nodes(g, q, destination as nat);
    let through = q.forced is Some;
    if label(t, through, destination).arrival == u64::MAX {
        None
    } else {
        trace(t, through, destination)
    }
}

/// An edge that was never sampled comes before one that was, and an older sample before a
/// newer one.
pub open spec fn sampled_before(a: Option<u64>, b: Option<u64>) -> bool {
    match (a, b) {
        (_, None) => false,
        (None, Some(_)) => true,
        (Some(x), Some(y)) => x < y,
    }
}

/// The nodes that can be reached, and the edge to be sampled so far.
#[verifier::ext_equal]
pub struct SampleScan {
    pub reachable: Seq<bool>,
    pub selected: Option<EdgeId>,
}

pub open spec fn scan_edge(g: PlanGraph, elapsed_ms: u64, s: SampleScan, id: EdgeId) -> SampleScan {
    let edge = edge_of(g, id);
    if !allowed(edge, elapsed_ms) {
        s
    } else {
        SampleScan {
            reachable: s.reachable.update(edge.next as int, true),
            selected: if s.selected is None || sampled_before(
                edge.last_sampled,
                edge_of(g, s.selected->0).last_sampled,
            ) {
                Some(id)
            } else {
                s.selected
            },
        }
    }
}

pub open spec fn scan_edges(
    g: PlanGraph,
    elapsed_ms: u64,
    s: SampleScan,
    v: int,
    k: nat,
) -> SampleScan
    decreases k,
{
    if k == 0 {
        s
    } else {
        scan_edge(
            g,
            elapsed_ms,
            scan_edges(g, elapsed_ms, s, v, (k - 1) as nat),
            EdgeId { node: v as usize, edge: (k - 1) as usize },
        )
    }
}

pub open spec fn scan_nodes(g: PlanGraph, elapsed_ms: u64, n: nat) -> SampleScan
    decreases n,
{
    if n == 0 {
        SampleScan { reachable: Seq::new(g.len(), |v: int| v == 0), selected: None }
    } else {
        let s = scan_nodes(g, elapsed_ms, (n - 1) as nat);
        if s.reachable[n - 1] {
            scan_edges(g, elapsed_ms, s, n - 1, g[n - 1].len())
        } else {
            s
        }
    }
}

/// The edge to be sampled: of those that can be reached and take packets, the one whose
/// last sample is the oldest.
pub open spec fn sampling_edge(g: PlanGraph, elapsed_ms: u64) -> Option<EdgeId> {
    scan_nodes(g, elapsed_ms, (g.len() - 1) as nat).selected
}

pub open spec fn set_edge(g: PlanGraph, id: EdgeId, edge: Edge) -> PlanGraph {
    g.update(id.node as int, g[id.node as int].update(id.edge as int, edge))
}

/// Takes the edges of a path, one after the other, for a packet that is ready at `ready`.
pub open spec fn reserved(
    g: PlanGraph,
    path: Seq<EdgeId>,
    ready: u64,
    elapsed_ms: u64,
    bytes: nat,
    sample: bool,
) -> PlanGraph
    decreases path.len(),
{
    if path.len() == 0 {
        g
    } else {
        let id = path[0];
        let edge = edge_of(g, id);
        let finished = finished_at(edge, ready, bytes);
        let taken = Edge {
            virtual_free_at: finished,
            last_sampled: if sample {
                Some(elapsed_ms)
            } else {
                edge.last_sampled
            },
            ..edge
        };
        reserved(
            set_edge(g, id, taken),
            path.drop_first(),
            saturated(finished + edge.latency_ms * 65536),
            elapsed_ms,
            bytes,
            sample,
        )
    }
}

pub open spec fn channels_of(g: PlanGraph, path: Seq<EdgeId>) -> Seq<u16> {
    Seq::new(path.len(), |i: int| edge_of(g, path[i]).channel_id)
}

/// The path for a packet: the best one or, for a sample, the best one through the edge to
/// be sampled.
pub open spec fn planned_path(
    g: PlanGraph,
    elapsed_ms: u64,
    bytes: usize,
    sample: bool,
) -> Option<Seq<EdgeId>> {
    if sample {
        match sampling_edge(g, elapsed_ms) {
            None => None,
            Some(id) => best_path(g, Search { elapsed_ms, bytes, forced: Some(id) }),
        }
    } else {
        best_path(g, Search { elapsed_ms, bytes, forced: None })
    }
}

/// The route plan of a packet, and the graph with its edges taken.
pub open spec fn planned(
    g: PlanGraph,
    elapsed_ms: u64,
    bytes: usize,
    sample: bool,
) -> (PlanGraph, Option<Seq<u16>>) {
    match planned_path(g, elapsed_ms, bytes, sample) {
        None => (g, None),
        Some(path) => (
            reserved(
                g,
                path,
                saturated(elapsed_ms * 65536),
                elapsed_ms,
                bytes as nat,
                sample,
            ),
            Some(channels_of(g, path)),
        ),
    }
}

/// The place of the first edge with this channel.
pub open spec fn position(edges: Seq<Edge>, channel_id: u16) -> int
    decreases edges.len(),
{
    if edges.len() == 0 {
        0
    } else if edges[0].channel_id == channel_id {
        0
    } else {
        1 + position(edges.drop_first(), channel_id)
    }
}

pub open spec fn has_channel(edges: Seq<Edge>, channel_id: u16) -> bool {
    exists|k: int| 0 <= k < edges.len() && (#[trigger] edges[k]).channel_id == channel_id
}

/// The result is not older than what is known of the edge.
pub open spec fn observes(edge: Edge, at: u64) -> bool {
    match edge.last_observation_at {
        None => true,
        Some(last) => at >= last,
    }
}

/// An edge after its channel refused a packet.
pub open spec fn failed_edge(edge: Edge, elapsed_ms: u64) -> Edge {
    let scored = if observes(edge, elapsed_ms) {
        Edge {
            loss: (edge.loss + (LOSS_ONE - edge.loss) / 2) as u32,
            last_observation_at: Some(elapsed_ms),
            ..edge
        }
    } else {
        edge
    };
    Edge {
        cooldown_until: saturated(elapsed_ms + edge.retry_delay_ms),
        retry_delay_ms: if edge.retry_delay_ms * 2 <= LOCAL_COOLDOWN_MAX_MS {
            (edge.retry_delay_ms * 2) as u64
        } else {
            LOCAL_COOLDOWN_MAX_MS
        },
        ..scored
    }
}

pub open spec fn send_failed(g: PlanGraph, channel_id: u16, elapsed_ms: u64) -> PlanGraph {
    let id = EdgeId { node: 0, edge: position(g[0], channel_id) as usize };
    set_edge(g, id, failed_edge(edge_of(g, id), elapsed_ms))
}

/// An edge after a sample on it has been answered or given up.
pub open spec fn observed_edge(edge: Edge, at: u64, success: bool) -> Edge {
    if observes(edge, at) {
        Edge {
            loss: if success {
                (edge.loss * 3 / 4) as u32
            } else {
                (edge.loss + (LOSS_ONE - edge.loss) / 16) as u32
            },
            last_observation_at: Some(at),
            ..edge
        }
    } else {
        edge
    }
}

/// The channels of `plan` can be followed from node `v` on.
pub open spec fn walkable(g: PlanGraph, v: int, plan: Seq<u16>) -> bool
    decreases plan.len(),
{
    plan.len() == 0 || {
        &&& 0 <= v < g.len()
        &&& has_channel(g[v], plan[0])
        &&& walkable(g, g[v][position(g[v], plan[0])].next as int, plan.drop_first())
    }
}

/// Scores every edge of a plan from node `v` on.
pub open spec fn observed(
    g: PlanGraph,
    v: int,
    plan: Seq<u16>,
    at: u64,
    success: bool,
) -> PlanGraph
    decreases plan.len(),
{
    if plan.len() == 0 {
        g
    } else {
        let id = EdgeId { node: v as usize, edge: position(g[v], plan[0]) as usize };
        let edge = edge_of(g, id);
        observed(
            set_edge(g, id, observed_edge(edge, at, success)),
            edge.next as int,
            plan.drop_first(),
            at,
            success,
        )
    }
}

/// The graph after a sample on `plan` has been answered or given up. An answer ends the
/// cooldown of the first edge.
pub open spec fn feedback(g: PlanGraph, plan: Seq<u16>, at: u64, success: bool) -> PlanGraph {
    let scored = observed(g, 0, plan, at, success);
    if plan.len() > 0 {
        let id = EdgeId { node: 0, edge: position(g[0], plan[0]) as usize };
        if success && observes(edge_of(g, id), at) {
            set_edge(
                scored,
                id,
                Edge {
                    cooldown_until: 0,
                    retry_delay_ms: LOCAL_COOLDOWN_INITIAL_MS,
                    ..edge_of(scored, id)
                },
            )
        } else {
            scored
        }
    } else {
        scored
    }
}

/// Topological order, distinct channels, and scores within their range.
pub open spec fn plan_graph_wf(g: PlanGraph) -> bool {
    &&& 1 <= g.len() <= usize::MAX
    &&& forall|v: int| 0 <= v < g.len() ==> (#[trigger] g[v]).len() <= usize::MAX
    &&& forall|v: int, k: int|
        0 <= v < g.len() && 0 <= k < g[v].len() ==> {
            &&& v < (#[trigger] g[v][k]).next < g.len()
            &&& g[v][k].loss <= LOSS_ONE
            &&& g[v][k].capacity_kbps > 0
            &&& 0 < g[v][k].retry_delay_ms <= LOCAL_COOLDOWN_MAX_MS
        }
    &&& forall|v: int, j: int, k: int|
        0 <= v < g.len() && 0 <= j < k < g[v].len() ==> (#[trigger] g[v][j]).channel_id != (
        #[trigger] g[v][k]).channel_id
}

// ---------------------------------------------------------------------------
// Planner
// ---------------------------------------------------------------------------

/// The label tables of a search.
struct Table {
    plain: Vec<Label>,
    through: Vec<Label>,
}

impl Table {
    spec fn model(&self) -> TableState {
        TableState { plain: self.plain@, through: self.through@ }
    }

    fn label(&self, through: bool, v: usize) -> (l: Label)
        requires
            v < self.plain@.len() == self.through@.len(),
        ensures
            l == label(self.model(), through, v as int),
    {
        if through {
            self.through[v]
        } else {
            self.plain[v]
        }
    }

    fn relabel(&mut self, through: bool, v: usize, l: Label)
        requires
            v < old(self).plain@.len() == old(self).through@.len(),
        ensures
            final(self).model() == relabel(old(self).model(), through, v as int, l),
            final(self).plain@.len() == old(self).plain@.len(),
            final(self).through@.len() == old(self).through@.len(),
    {
        if through {
            self.through[v] = l;
        } else {
            self.plain[v] = l;
        }
    }
}

pub struct RoutePlanner {
    nodes: Vec<Vec<Edge>>,
}

impl View for RoutePlanner {
    type V = PlanGraph;

    closed spec fn view(&self) -> PlanGraph {
        Seq::new(self.nodes@.len(), |v: int| self.nodes@[v]@)
    }
}

fn sat_add(a: u64, b: u64) -> (c: u64)
    ensures
        c == saturated(a + b),
{
    a.saturating_add(b)
}

/// `ms` milliseconds of virtual time.
fn virtual_ms(ms: u64) -> (t: u64)
    ensures
        t == saturated(ms * 65536),
{
    if ms <= 0xffff_ffff_ffff {
        ms * FIXED_ONE
    } else {
        u64::MAX
    }
}

fn edge_allowed(edge: &Edge, elapsed_ms: u64) -> (yes: bool)
    ensures
        yes == allowed(*edge, elapsed_ms),
{
    elapsed_ms >= edge.cooldown_until
}

/// The virtual time that a packet takes on an edge.
pub fn serialization_time(edge: &Edge, bytes: usize) -> (time: u64)
    requires
        edge.loss <= LOSS_ONE,
        edge.capacity_kbps > 0,
    ensures
        time == service_time(*edge, bytes as nat),
{
    let loss: u64 = edge.loss as u64;
    assert(0 <= loss * loss <= 65535 * 65535) by (nonlinear_arith)
        requires
            loss <= 65535,
    ;
    let penalty: u64 = FIXED_ONE + 15 * (loss * loss) * FIXED_ONE / 4_294_836_225;
    assert(bytes * 8 * penalty <= usize::MAX * 8 * 0x10_0000) by (nonlinear_arith)
        requires
            bytes <= usize::MAX,
            0 <= penalty <= 0x10_0000,
    ;
    let work: u128 = bytes as u128 * 8 * penalty as u128;
    let time: u128 = if work == 0 {
        0
    } else {
        proof {
            crate::kcp::laws::lemma_div_bound(work - 1, edge.capacity_kbps as int);
        }
        (work - 1) / edge.capacity_kbps as u128 + 1
    };
    if time <= 0xffff_ffff_ffff_ffff {
        time as u64
    } else {
        u64::MAX
    }
}

/// When a packet that is ready at `ready` has left the edge behind it.
fn finish_time(edge: &Edge, ready: u64, bytes: usize) -> (time: u64)
    requires
        edge.loss <= LOSS_ONE,
        edge.capacity_kbps > 0,
    ensures
        time == finished_at(*edge, ready, bytes as nat),
{
    let start: u64 = if ready >= edge.virtual_free_at {
        ready
    } else {
        edge.virtual_free_at
    };
    sat_add(start, serialization_time(edge, bytes))
}

fn latency(edge: &Edge) -> (time: u64)
    ensures
        time == edge.latency_ms * 65536,
{
    edge.latency_ms as u64 * FIXED_ONE
}

fn is_sampled_before(a: Option<u64>, b: Option<u64>) -> (yes: bool)
    ensures
        yes == sampled_before(a, b),
{
    match (a, b) {
        (_, None) => false,
        (None, Some(_)) => true,
        (Some(x), Some(y)) => x < y,
    }
}

fn same_edge(a: Option<EdgeId>, b: EdgeId) -> (yes: bool)
    ensures
        yes == (a == Some(b)),
{
    match a {
        None => false,
        Some(id) => id.node == b.node && id.edge == b.edge,
    }
}

impl RoutePlanner {
    pub open spec fn wf(&self) -> bool {
        plan_graph_wf(self@)
    }

    pub fn new(config: &RouteConfig) -> (planner: Self)
        ensures
            planner@ == new_graph(config.graph@),
            graph_ordered(config.graph@) ==> planner.wf(),
    {
        let mut nodes: Vec<Vec<Edge>> = Vec::new();
        let mut v: usize = 0;
        let total: usize = config.graph.nodes.len();
        while v < total
            invariant
                total == config.graph.nodes@.len(),
                v <= total,
                nodes@.len() == v,
                forall|i: int|
                    0 <= i < v ==> (#[trigger] nodes@[i])@ == new_graph(config.graph@)[i],
            decreases total - v,
        {
            let node = &config.graph.nodes[v];
            let mut edges: Vec<Edge> = Vec::new();
            let mut k: usize = 0;
            while k < node.edges.len()
                invariant
                    k <= node.edges@.len(),
                    edges@.len() == k,
                    forall|i: int|
                        0 <= i < k ==> #[trigger] edges@[i] == new_edge(node.edges@[i]),
                decreases node.edges@.len() - k,
            {
                let edge = node.edges[k];
                edges.push(
                    Edge {
                        channel_id: edge.channel_id,
                        next: edge.next as usize,
                        capacity_kbps: if edge.capacity_hint_kbps == 0 {
                            DEFAULT_ROUTE_CAPACITY_KBPS
                        } else {
                            edge.capacity_hint_kbps
                        },
                        latency_ms: if edge.latency_hint_ms == 0 {
                            DEFAULT_ROUTE_LATENCY_MS
                        } else {
                            edge.latency_hint_ms
                        },
                        virtual_free_at: 0,
                        loss: 0,
                        cooldown_until: 0,
                        retry_delay_ms: LOCAL_COOLDOWN_INITIAL_MS,
                        last_sampled: None,
                        last_observation_at: None,
                    },
                );
                k = k + 1;
            }
            assert(edges@ =~= new_graph(config.graph@)[v as int]);
            nodes.push(edges);
            v = v + 1;
        }
        let planner = Self { nodes };
        assert(planner@ =~= new_graph(config.graph@));
        proof {
            let g = config.graph@;
            if graph_ordered(g) {
                assert forall|i: int| 0 <= i < planner@.len() implies (
                #[trigger] planner@[i]).len() <= usize::MAX by {
                    assert(planner.nodes@[i].len() == planner@[i].len());
                }
                assert forall|i: int, k: int|
                    0 <= i < planner@.len() && 0 <= k < planner@[i].len() implies i < (
                #[trigger] planner@[i][k]).next < planner@.len() by {
                    assert(i < g[i][k].next < g.len());
                }
                assert forall|i: int, j: int, k: int|
                    0 <= i < planner@.len() && 0 <= j < k < planner@[i].len() implies (
                #[trigger] planner@[i][j]).channel_id != (
                #[trigger] planner@[i][k]).channel_id by {
                    assert(g[i][j].channel_id != g[i][k].channel_id);
                }
            }
        }
        planner
    }

    fn edge(&self, id: EdgeId) -> (edge: Edge)
        requires
            is_edge(self@, id),
        ensures
            edge == edge_of(self@, id),
    {
        self.nodes[id.node][id.edge]
    }

    fn put_edge(&mut self, id: EdgeId, edge: Edge)
        requires
            is_edge(old(self)@, id),
        ensures
            final(self)@ == set_edge(old(self)@, id, edge),
    {
        let ghost before = self@;
        let slot = &mut self.nodes[id.node];
        slot[id.edge] = edge;
        assert(self@[id.node as int] =~= before[id.node as int].update(id.edge as int, edge));
        assert(self@ =~= set_edge(before, id, edge));
    }

    fn relax(&self, table: &mut Table, q: &Search, through: bool, id: EdgeId)
        requires
            self.wf(),
            is_edge(self@, id),
            old(table).plain@.len() == self@.len(),
            old(table).through@.len() == self@.len(),
        ensures
            final(table).model() == relax(self@, *q, old(table).model(), through, id),
            final(table).plain@.len() == self@.len(),
            final(table).through@.len() == self@.len(),
    {
        let edge = self.edge(id);
        assert(edge == self@[id.node as int][id.edge as int]);
        let here: u64 = table.label(through, id.node).arrival;
        if here == u64::MAX || !edge_allowed(&edge, q.elapsed_ms) {
            return;
        }
        let after: bool = through || same_edge(q.forced, id);
        let arrival: u64 = sat_add(finish_time(&edge, here, q.bytes), latency(&edge));
        if arrival < table.label(after, edge.next).arrival {
            table.relabel(after, edge.next, Label { arrival, from: Some((through, id)) });
        }
    }

    fn relax_edges(&self, table: &mut Table, q: &Search, through: bool, node: usize)
        requires
            self.wf(),
            node < self@.len(),
            old(table).plain@.len() == self@.len(),
            old(table).through@.len() == self@.len(),
        ensures
            final(table).model() == relax_edges(
                self@,
                *q,
                old(table).model(),
                through,
                node as int,
                self@[node as int].len(),
            ),
            final(table).plain@.len() == self@.len(),
            final(table).through@.len() == self@.len(),
    {
        let count: usize = self.nodes[node].len();
        let mut edge: usize = 0;
        while edge < count
            invariant
                self.wf(),
                node < self@.len(),
                count == self@[node as int].len(),
                edge <= count,
                table.plain@.len() == self@.len(),
                table.through@.len() == self@.len(),
                table.model() == relax_edges(
                    self@,
                    *q,
                    old(table).model(),
                    through,
                    node as int,
                    edge as nat,
                ),
            decreases count - edge,
        {
            self.relax(table, q, through, EdgeId { node, edge });
            edge = edge + 1;
        }
    }

    fn calculate_path(&self, q: &Search) -> (path: Option<Vec<EdgeId>>)
        requires
            self.wf(),
        ensures
            match best_path(self@, *q) {
                Some(p) => path is Some && path->0@ == p,
                None => path is None,
            },
            path is Some ==> forall|i: int|
                0 <= i < path->0@.len() ==> is_edge(self@, #[trigger] path->0@[i]),
    {
        let destination: usize = self.nodes.len() - 1;
        let mut table = self.first_labels(q);
        let mut node: usize = 0;
        while node < destination
            invariant
                self.wf(),
                destination == self@.len() - 1,
                node <= destination,
                table.plain@.len() == self@.len(),
                table.through@.len() == self@.len(),
                table.model() == relax_nodes(self@, *q, node as nat),
            decreases destination - node,
        {
            self.relax_edges(&mut table, q, false, node);
            if q.forced.is_some() {
                self.relax_edges(&mut table, q, true, node);
            }
            node = node + 1;
        }
        let mut through: bool = q.forced.is_some();
        if table.label(through, destination).arrival == u64::MAX {
            return None;
        }
        let ghost t = table.model();
        proof {
            lemma_labels(self@, *q, destination as nat);
        }
        let mut at: usize = destination;
        let mut back: Vec<EdgeId> = Vec::new();
        let ghost whole = trace(t, through, destination as int);
        assert(back@.reverse() =~= Seq::empty());
        assert(match trace(t, through, at as int) {
            None => None::<Seq<EdgeId>>,
            Some(p) => Some(p + back@.reverse()),
        } == whole) by {
            match trace(t, through, at as int) {
                None => {},
                Some(p) => {
                    assert(p + back@.reverse() =~= p);
                },
            }
        }
        while at != 0
            invariant
                self.wf(),
                destination == self@.len() - 1,
                at <= destination,
                t == table.model(),
                labels_hold(self@, *q, t, destination as nat),
                label(t, through, at as int).arrival < u64::MAX,
                table.plain@.len() == self@.len(),
                table.through@.len() == self@.len(),
                whole == (match trace(t, through, at as int) {
                    None => None,
                    Some(p) => Some(p + back@.reverse()),
                }),
                forall|i: int| 0 <= i < back@.len() ==> is_edge(self@, #[trigger] back@[i]),
            decreases at,
        {
            match table.label(through, at).from {
                None => {
                    assert(label_holds(self@, *q, t, destination as nat, through, at as int));
                    assert(false);
                    return None;
                },
                Some((before, id)) => {
                    assert(label_holds(self@, *q, t, destination as nat, through, at as int));
                    let ghost done = back@;
                    back.push(id);
                    proof {
                        match trace(t, before, id.node as int) {
                            None => {},
                            Some(p) => {
                                assert(p.push(id) + done.reverse() =~= p + back@.reverse());
                            },
                        }
                    }
                    at = id.node;
                    through = before;
                },
            }
        }
        let path = reversed(&back);
        assert(whole == Some(Seq::<EdgeId>::empty() + back@.reverse()));
        assert(Seq::<EdgeId>::empty() + back@.reverse() =~= path@);
        Some(path)
    }

    fn first_labels(&self, q: &Search) -> (table: Table)
        requires
            self.wf(),
        ensures
            table.model() == first_table(self@.len(), *q),
            table.plain@.len() == self@.len(),
            table.through@.len() == self@.len(),
    {
        let n: usize = self.nodes.len();
        let mut plain: Vec<Label> = Vec::new();
        let mut through: Vec<Label> = Vec::new();
        let mut v: usize = 0;
        while v < n
            invariant
                n == self@.len(),
                v <= n,
                plain@ == first_table(n as nat, *q).plain.take(v as int),
                through@ == first_table(n as nat, *q).through.take(v as int),
            decreases n - v,
        {
            if v == 0 {
                plain.push(Label { arrival: virtual_ms(q.elapsed_ms), from: None });
            } else {
                plain.push(Label { arrival: u64::MAX, from: None });
            }
            through.push(Label { arrival: u64::MAX, from: None });
            v = v + 1;
            assert(plain@ =~= first_table(n as nat, *q).plain.take(v as int));
            assert(through@ =~= first_table(n as nat, *q).through.take(v as int));
        }
        let table = Table { plain, through };
        assert(table.model() =~= first_table(self@.len(), *q));
        table
    }

    fn sampling_edge(&self, elapsed_ms: u64) -> (selected: Option<EdgeId>)
        requires
            self.wf(),
        ensures
            selected == sampling_edge(self@, elapsed_ms),
            selected is Some ==> is_edge(self@, selected->0),
    {
        let destination: usize = self.nodes.len() - 1;
        let mut reachable: Vec<bool> = Vec::new();
        while reachable.len() < self.nodes.len()
            invariant
                reachable@.len() <= self@.len(),
                forall|v: int| 0 <= v < reachable@.len() ==> reachable@[v] == (v == 0),
            decreases self@.len() - reachable@.len(),
        {
            reachable.push(reachable.len() == 0);
        }
        let mut selected: Option<EdgeId> = None;
        let mut node: usize = 0;
        assert(reachable@ =~= scan_nodes(self@, elapsed_ms, 0).reachable);
        while node < destination
            invariant
                self.wf(),
                destination == self@.len() - 1,
                node <= destination,
                reachable@.len() == self@.len(),
                scan_nodes(self@, elapsed_ms, node as nat) == (SampleScan {
                    reachable: reachable@,
                    selected,
                }),
                selected is Some ==> is_edge(self@, selected->0),
            decreases destination - node,
        {
            if reachable[node] {
                let ghost start = SampleScan { reachable: reachable@, selected };
                let count: usize = self.nodes[node].len();
                let mut edge: usize = 0;
                while edge < count
                    invariant
                        self.wf(),
                        node < self@.len(),
                        count == self@[node as int].len(),
                        edge <= count,
                        reachable@.len() == self@.len(),
                        scan_edges(self@, elapsed_ms, start, node as int, edge as nat) == (
                        SampleScan { reachable: reachable@, selected }),
                        selected is Some ==> is_edge(self@, selected->0),
                    decreases count - edge,
                {
                    let id = EdgeId { node, edge };
                    let current = self.edge(id);
                    assert(current == self@[node as int][edge as int]);
                    if edge_allowed(&current, elapsed_ms) {
                        reachable[current.next] = true;
                        let replaces: bool = match selected {
                            None => true,
                            Some(other) => is_sampled_before(
                                current.last_sampled,
                                self.edge(other).last_sampled,
                            ),
                        };
                        if replaces {
                            selected = Some(id);
                        }
                    }
                    edge = edge + 1;
                }
            }
            node = node + 1;
        }
        selected
    }

    /// Takes the edges of a path for a packet.
    fn reserve(
        &mut self,
        path: &Vec<EdgeId>,
        elapsed_ms: u64,
        scheduled_bytes: usize,
        sample: bool,
    )
        requires
            old(self).wf(),
            forall|i: int| 0 <= i < path@.len() ==> is_edge(old(self)@, #[trigger] path@[i]),
        ensures
            final(self).wf(),
            same_topology(old(self)@, final(self)@),
            final(self)@ == reserved(
                old(self)@,
                path@,
                saturated(elapsed_ms * 65536),
                elapsed_ms,
                scheduled_bytes as nat,
                sample,
            ),
    {
        let mut cursor: u64 = virtual_ms(elapsed_ms);
        let mut i: usize = 0;
        assert(path@.skip(0) =~= path@);
        while i < path.len()
            invariant
                self.wf(),
                same_topology(old(self)@, self@),
                i <= path@.len(),
                forall|j: int| 0 <= j < path@.len() ==> is_edge(old(self)@, #[trigger] path@[j]),
                reserved(
                    self@,
                    path@.skip(i as int),
                    cursor,
                    elapsed_ms,
                    scheduled_bytes as nat,
                    sample,
                ) == reserved(
                    old(self)@,
                    path@,
                    saturated(elapsed_ms * 65536),
                    elapsed_ms,
                    scheduled_bytes as nat,
                    sample,
                ),
            decreases path@.len() - i,
        {
            let id = path[i];
            assert(is_edge(self@, id));
            let mut edge = self.edge(id);
            assert(edge == self@[id.node as int][id.edge as int]);
            let finished: u64 = finish_time(&edge, cursor, scheduled_bytes);
            cursor = sat_add(finished, latency(&edge));
            edge.virtual_free_at = finished;
            if sample {
                edge.last_sampled = Some(elapsed_ms);
            }
            proof {
                assert(path@.skip(i as int)[0] == id);
                assert(path@.skip(i as int).drop_first() =~= path@.skip(i + 1));
                lemma_set_edge(self@, id, edge);
            }
            let ghost before = self@;
            self.put_edge(id, edge);
            proof {
                lemma_same_topology_trans(old(self)@, before, self@);
            }
            i = i + 1;
        }
    }

    /// The channels of a path.
    fn channels(&self, path: &Vec<EdgeId>) -> (channels: Vec<ChannelId>)
        requires
            forall|i: int| 0 <= i < path@.len() ==> is_edge(self@, #[trigger] path@[i]),
        ensures
            channels@ == channels_of(self@, path@),
    {
        let mut channels: Vec<ChannelId> = Vec::new();
        let mut i: usize = 0;
        while i < path.len()
            invariant
                i <= path@.len(),
                forall|j: int| 0 <= j < path@.len() ==> is_edge(self@, #[trigger] path@[j]),
                channels@ == channels_of(self@, path@).take(i as int),
            decreases path@.len() - i,
        {
            channels.push(self.edge(path[i]).channel_id);
            i = i + 1;
            assert(channels@ =~= channels_of(self@, path@).take(i as int));
        }
        assert(channels@ =~= channels_of(self@, path@));
        channels
    }

    /// The channels that a packet of `scheduled_bytes` should take now, and their
    /// reservation. A sample goes through the edge whose last sample is the oldest.
    pub fn build_route_plan(
        &mut self,
        elapsed_ms: u64,
        scheduled_bytes: usize,
        sample: bool,
    ) -> (plan: Option<Vec<ChannelId>>)
        requires
            old(self).wf(),
        ensures
            final(self).wf(),
            same_topology(old(self)@, final(self)@),
            final(self)@ == planned(old(self)@, elapsed_ms, scheduled_bytes, sample).0,
            match planned(old(self)@, elapsed_ms, scheduled_bytes, sample).1 {
                Some(channels) => plan is Some && plan->0@ == channels,
                None => plan is None,
            },
    {
        let forced: Option<EdgeId> = if sample {
            match self.sampling_edge(elapsed_ms) {
                None => {
                    return None;
                },
                Some(id) => Some(id),
            }
        } else {
            None
        };
        match self.calculate_path(&Search { elapsed_ms, bytes: scheduled_bytes, forced }) {
            None => None,
            Some(path) => {
                let channels = self.channels(&path);
                self.reserve(&path, elapsed_ms, scheduled_bytes, sample);
                Some(channels)
            },
        }
    }

    /// The place of the first edge of a node with this channel.
    fn find(&self, node: usize, channel_id: ChannelId) -> (edge: usize)
        requires
            node < self@.len(),
            has_channel(self@[node as int], channel_id),
        ensures
            edge == position(self@[node as int], channel_id),
            is_edge(self@, (EdgeId { node, edge })),
            self@[node as int][edge as int].channel_id == channel_id,
    {
        let ghost edges = self@[node as int];
        let count: usize = self.nodes[node].len();
        let mut k: usize = 0;
        assert(edges.skip(0) =~= edges);
        while self.nodes[node][k].channel_id != channel_id
            invariant
                node < self@.len(),
                edges == self@[node as int],
                k < count == edges.len(),
                k + position(edges.skip(k as int), channel_id) == position(edges, channel_id),
                exists|j: int| k <= j < edges.len() && (#[trigger] edges[j]).channel_id == channel_id,
            decreases edges.len() - k,
        {
            proof {
                let rest = edges.skip(k as int);
                assert(rest.drop_first() =~= edges.skip(k + 1));
                assert(rest[0] == edges[k as int]);
            }
            k = k + 1;
        }
        assert(edges.skip(k as int)[0] == edges[k as int]);
        k
    }

    /// Whether the source has an edge with this channel.
    pub fn has_local_channel(&self, channel_id: ChannelId) -> (yes: bool)
        requires
            self.wf(),
        ensures
            yes == has_channel(self@[0], channel_id),
    {
        let mut k: usize = 0;
        while k < self.nodes[0].len()
            invariant
                self.wf(),
                k <= self@[0].len(),
                forall|j: int| 0 <= j < k ==> (#[trigger] self@[0][j]).channel_id != channel_id,
            decreases self@[0].len() - k,
        {
            if self.nodes[0][k].channel_id == channel_id {
                assert(self@[0][k as int].channel_id == channel_id);
                return true;
            }
            k = k + 1;
        }
        false
    }

    /// A local channel refused a packet.
    pub fn note_local_send_failure(&mut self, channel_id: ChannelId, elapsed_ms: u64)
        requires
            old(self).wf(),
            has_channel(old(self)@[0], channel_id),
        ensures
            final(self).wf(),
            same_topology(old(self)@, final(self)@),
            final(self)@ == send_failed(old(self)@, channel_id, elapsed_ms),
    {
        let id = EdgeId { node: 0, edge: self.find(0, channel_id) };
        let mut runtime = self.edge(id);
        assert(runtime == self@[0][id.edge as int]);
        let observed: bool = match runtime.last_observation_at {
            None => true,
            Some(last) => elapsed_ms >= last,
        };
        if observed {
            runtime.loss = runtime.loss + (LOSS_ONE - runtime.loss) / 2;
            runtime.last_observation_at = Some(elapsed_ms);
        }
        runtime.cooldown_until = sat_add(elapsed_ms, runtime.retry_delay_ms);
        runtime.retry_delay_ms = if runtime.retry_delay_ms * 2 <= LOCAL_COOLDOWN_MAX_MS {
            runtime.retry_delay_ms * 2
        } else {
            LOCAL_COOLDOWN_MAX_MS
        };
        proof {
            lemma_set_edge(self@, id, runtime);
        }
        self.put_edge(id, runtime);
    }

    /// A sample on `plan` that was sent at `observation_at` has been answered, or given up.
    pub fn note_feedback(&mut self, plan: &Vec<ChannelId>, observation_at: u64, success: bool)
        requires
            old(self).wf(),
            walkable(old(self)@, 0, plan@),
        ensures
            final(self).wf(),
            same_topology(old(self)@, final(self)@),
            final(self)@ == feedback(old(self)@, plan@, observation_at, success),
    {
        let mut node: usize = 0;
        let mut first: Option<EdgeId> = None;
        let mut accepted_first: bool = false;
        let mut i: usize = 0;
        assert(plan@.skip(0) =~= plan@);
        proof {
            lemma_same_topology_refl(self@);
        }
        while i < plan.len()
            invariant
                self.wf(),
                same_topology(old(self)@, self@),
                i <= plan@.len(),
                walkable(self@, node as int, plan@.skip(i as int)),
                observed(
                    self@,
                    node as int,
                    plan@.skip(i as int),
                    observation_at,
                    success,
                ) == observed(old(self)@, 0, plan@, observation_at, success),
                i == 0 ==> first is None && node == 0 && !accepted_first && self@ == old(self)@,
                i > 0 ==> first == Some(
                    EdgeId { node: 0, edge: position(old(self)@[0], plan@[0]) as usize },
                ),
                i > 0 ==> accepted_first == observes(
                    edge_of(old(self)@, first->0),
                    observation_at,
                ),
                i > 0 ==> is_edge(old(self)@, first->0),
            decreases plan@.len() - i,
        {
            let ghost rest = plan@.skip(i as int);
            assert(rest.drop_first() =~= plan@.skip(i + 1));
            assert(rest[0] == plan@[i as int]);
            let edge: usize = self.find(node, plan[i]);
            let id = EdgeId { node, edge };
            let is_first: bool = first.is_none();
            if is_first {
                first = Some(id);
            }
            let ghost before = self@;
            let mut runtime = self.edge(id);
            assert(runtime == before[node as int][edge as int]);
            let next: usize = runtime.next;
            let stale: bool = match runtime.last_observation_at {
                None => false,
                Some(last) => observation_at < last,
            };
            if !stale {
                runtime.loss = if success {
                    runtime.loss * 3 / 4
                } else {
                    runtime.loss + (LOSS_ONE - runtime.loss) / 16
                };
                runtime.last_observation_at = Some(observation_at);
                accepted_first = accepted_first || is_first;
            }
            proof {
                lemma_set_edge(before, id, runtime);
                lemma_walkable_topology(
                    before,
                    set_edge(before, id, runtime),
                    next as int,
                    rest.drop_first(),
                );
            }
            self.put_edge(id, runtime);
            proof {
                lemma_same_topology_trans(old(self)@, before, self@);
            }
            node = next;
            i = i + 1;
        }
        if success && accepted_first {
            if let Some(id) = first {
                assert(is_edge(self@, id));
                let mut runtime = self.edge(id);
                assert(runtime == self@[id.node as int][id.edge as int]);
                runtime.cooldown_until = 0;
                runtime.retry_delay_ms = LOCAL_COOLDOWN_INITIAL_MS;
                proof {
                    lemma_set_edge(self@, id, runtime);
                }
                let ghost before = self@;
                self.put_edge(id, runtime);
                proof {
                    lemma_same_topology_trans(old(self)@, before, self@);
                }
            }
        }
    }
}

fn reversed(path: &Vec<EdgeId>) -> (out: Vec<EdgeId>)
    ensures
        out@ == path@.reverse(),
{
    let mut out: Vec<EdgeId> = Vec::new();
    let mut left: usize = path.len();
    while left > 0
        invariant
            left <= path@.len(),
            out@ == path@.reverse().take(path@.len() - left),
        decreases left,
    {
        out.push(path[left - 1]);
        left = left - 1;
        assert(out@ =~= path@.reverse().take(path@.len() - left));
    }
    assert(out@ =~= path@.reverse());
    out
}

// ---------------------------------------------------------------------------
// What the labels say
// ---------------------------------------------------------------------------

/// A label that has been reached says by which edge, from a label that is final.
pub open spec fn label_holds(
    g: PlanGraph,
    q: Search,
    t: TableState,
    n: nat,
    through: bool,
    v: int,
) -> bool {
    let l = label(t, through, v);
    match l.from {
        None => l.arrival == u64::MAX || (v == 0 && !through && l.arrival == search_start(q)),
        Some((before, id)) => {
            &&& is_edge(g, id)
            &&& id.node < n
            &&& id.node < v
            &&& edge_of(g, id).next == v
            &&& allowed(edge_of(g, id), q.elapsed_ms)
            &&& through == (before || q.forced == Some(id))
            &&& label(t, before, id.node as int).arrival < u64::MAX
            &&& l.arrival == arrives_at(
                edge_of(g, id),
                label(t, before, id.node as int).arrival,
                q.bytes as nat,
            )
            &&& l.arrival < u64::MAX
        },
    }
}

pub open spec fn labels_hold(g: PlanGraph, q: Search, t: TableState, n: nat) -> bool {
    &&& t.plain.len() == g.len()
    &&& t.through.len() == g.len()
    &&& forall|through: bool, v: int|
        0 <= v < g.len() ==> #[trigger] label_holds(g, q, t, n, through, v)
    &&& t.plain[0] == (Label { arrival: search_start(q), from: None })
    &&& t.through[0] == no_label()
}

/// Each edge that was tried leads no earlier to its end than the label there says.
pub open spec fn edge_settled(
    g: PlanGraph,
    q: Search,
    t: TableState,
    through: bool,
    id: EdgeId,
) -> bool {
    let edge = edge_of(g, id);
    let here = label(t, through, id.node as int).arrival;
    allowed(edge, q.elapsed_ms) ==> label(
        t,
        through || q.forced == Some(id),
        edge.next as int,
    ).arrival <= arrives_at(edge, here, q.bytes as nat)
}

proof fn lemma_relax_holds(
    g: PlanGraph,
    q: Search,
    t: TableState,
    n: nat,
    through: bool,
    id: EdgeId,
)
    requires
        plan_graph_wf(g),
        is_edge(g, id),
        labels_hold(g, q, t, n),
        id.node == n - 1,
    ensures
        labels_hold(g, q, relax(g, q, t, through, id), n),
        edge_settled(g, q, relax(g, q, t, through, id), through, id),
        forall|b: bool, w: int|
            0 <= w <= id.node ==> label(relax(g, q, t, through, id), b, w) == #[trigger] label(
                t,
                b,
                w,
            ),
        forall|b: bool, w: int|
            0 <= w < g.len() ==> label(relax(g, q, t, through, id), b, w).arrival <= (
            #[trigger] label(t, b, w)).arrival,
{
    let s = relax(g, q, t, through, id);
    assert(edge_of(g, id) == g[id.node as int][id.edge as int]);
    assert forall|b: bool, w: int| 0 <= w < g.len() implies #[trigger] label_holds(
        g,
        q,
        s,
        n,
        b,
        w,
    ) by {
        assert(label_holds(g, q, t, n, b, w));
    }
}

proof fn lemma_relax_edges_hold(
    g: PlanGraph,
    q: Search,
    t: TableState,
    n: nat,
    through: bool,
    v: int,
    k: nat,
)
    requires
        plan_graph_wf(g),
        0 <= v < g.len(),
        v == n - 1,
        k <= g[v].len(),
        labels_hold(g, q, t, n),
    ensures
        labels_hold(g, q, relax_edges(g, q, t, through, v, k), n),
        forall|j: int|
            0 <= j < k ==> edge_settled(
                g,
                q,
                relax_edges(g, q, t, through, v, k),
                through,
                #[trigger] edge_id(v, j),
            ),
        forall|b: bool, w: int|
            0 <= w <= v ==> label(relax_edges(g, q, t, through, v, k), b, w) == #[trigger] label(
                t,
                b,
                w,
            ),
        forall|b: bool, w: int|
            0 <= w < g.len() ==> label(relax_edges(g, q, t, through, v, k), b, w).arrival <= (
            #[trigger] label(t, b, w)).arrival,
    decreases k,
{
    if k > 0 {
        lemma_relax_edges_hold(g, q, t, n, through, v, (k - 1) as nat);
        let before = relax_edges(g, q, t, through, v, (k - 1) as nat);
        let id = edge_id(v, k - 1);
        lemma_relax_holds(g, q, before, n, through, id);
        let after = relax_edges(g, q, t, through, v, k);
        assert forall|j: int| 0 <= j < k implies edge_settled(
            g,
            q,
            after,
            through,
            #[trigger] edge_id(v, j),
        ) by {
            if j < k - 1 {
                assert(edge_settled(g, q, before, through, edge_id(v, j)));
                assert(g[v][j].next < g.len());
                assert(label(after, through, v) == label(before, through, v));
                let other = through || q.forced == Some(edge_id(v, j));
                assert(label(after, other, g[v][j].next as int).arrival <= label(
                    before,
                    other,
                    g[v][j].next as int,
                ).arrival);
            }
        }
        assert forall|b: bool, w: int| 0 <= w <= v implies label(after, b, w) == #[trigger] label(
            t,
            b,
            w,
        ) by {
            assert(label(before, b, w) == label(t, b, w));
        }
        assert forall|b: bool, w: int| 0 <= w < g.len() implies label(after, b, w).arrival <= (
        #[trigger] label(t, b, w)).arrival by {
            assert(label(before, b, w).arrival <= label(t, b, w).arrival);
        }
    }
}

pub open spec fn edge_id(v: int, k: int) -> EdgeId {
    EdgeId { node: v as usize, edge: k as usize }
}

/// All edges of node `v` have been tried.
pub open spec fn node_settled(
    g: PlanGraph,
    q: Search,
    t: TableState,
    through: bool,
    v: int,
) -> bool {
    forall|k: int|
        0 <= k < g[v].len() ==> edge_settled(g, q, t, through, #[trigger] edge_id(v, k))
}

/// All edges of the first `n` nodes have been tried.
pub open spec fn settled(g: PlanGraph, q: Search, t: TableState, n: nat) -> bool {
    forall|through: bool, v: int|
        0 <= v < n && (through ==> q.forced is Some) ==> #[trigger] node_settled(
            g,
            q,
            t,
            through,
            v,
        )
}

proof fn lemma_labels(g: PlanGraph, q: Search, n: nat)
    requires
        plan_graph_wf(g),
        n < g.len(),
    ensures
        labels_hold(g, q, relax_nodes(g, q, n), n),
    decreases n,
{
    if n == 0 {
        let t = first_table(g.len(), q);
        assert forall|b: bool, w: int| 0 <= w < g.len() implies #[trigger] label_holds(
            g,
            q,
            t,
            n,
            b,
            w,
        ) by {}
    } else {
        lemma_labels(g, q, (n - 1) as nat);
        let before = relax_nodes(g, q, (n - 1) as nat);
        assert(labels_hold(g, q, before, n)) by {
            assert forall|b: bool, w: int| 0 <= w < g.len() implies #[trigger] label_holds(
                g,
                q,
                before,
                n,
                b,
                w,
            ) by {
                assert(label_holds(g, q, before, (n - 1) as nat, b, w));
            }
        }
        lemma_relax_edges_hold(g, q, before, n, false, n - 1, g[n - 1].len());
        let plain = relax_edges(g, q, before, false, n - 1, g[n - 1].len());
        lemma_relax_edges_hold(g, q, plain, n, true, n - 1, g[n - 1].len());
    }
}

// ---------------------------------------------------------------------------
// What does not change
// ---------------------------------------------------------------------------

/// Two graphs with the same edges, whatever is known of these.
pub open spec fn same_topology(g: PlanGraph, h: PlanGraph) -> bool {
    &&& g.len() == h.len()
    &&& forall|v: int| 0 <= v < g.len() ==> (#[trigger] g[v]).len() == h[v].len()
    &&& forall|v: int, k: int|
        #![trigger g[v][k]]
        #![trigger h[v][k]]
        0 <= v < g.len() && 0 <= k < g[v].len() ==> g[v][k].channel_id == h[v][k].channel_id
            && g[v][k].next == h[v][k].next
}

pub proof fn lemma_same_topology_refl(g: PlanGraph)
    ensures
        same_topology(g, g),
{
}

pub proof fn lemma_same_topology_trans(f: PlanGraph, g: PlanGraph, h: PlanGraph)
    requires
        same_topology(f, g),
        same_topology(g, h),
    ensures
        same_topology(f, h),
{
    assert forall|v: int| 0 <= v < f.len() implies (#[trigger] f[v]).len() == h[v].len() by {
        assert(g[v].len() == h[v].len());
    }
    assert forall|v: int, k: int|
        #![trigger f[v][k]]
        #![trigger h[v][k]]
        0 <= v < f.len() && 0 <= k < f[v].len() implies f[v][k].channel_id == h[v][k].channel_id
        && f[v][k].next == h[v][k].next by {
        assert(f[v].len() == g[v].len());
        assert(g[v][k].channel_id == h[v][k].channel_id);
    }
}

/// Replacing an edge by one with the same ends and a score in range keeps the graph valid.
pub proof fn lemma_set_edge(g: PlanGraph, id: EdgeId, edge: Edge)
    requires
        plan_graph_wf(g),
        is_edge(g, id),
        edge.channel_id == edge_of(g, id).channel_id,
        edge.next == edge_of(g, id).next,
        edge.loss <= LOSS_ONE,
        edge.capacity_kbps == edge_of(g, id).capacity_kbps,
        0 < edge.retry_delay_ms <= LOCAL_COOLDOWN_MAX_MS,
    ensures
        plan_graph_wf(set_edge(g, id, edge)),
        same_topology(g, set_edge(g, id, edge)),
{
    let h = set_edge(g, id, edge);
    assert(edge_of(g, id) == g[id.node as int][id.edge as int]);
    assert forall|v: int, k: int| 0 <= v < h.len() && 0 <= k < h[v].len() implies {
        &&& (#[trigger] h[v][k]).channel_id == g[v][k].channel_id
        &&& h[v][k].next == g[v][k].next
        &&& v < h[v][k].next < h.len()
        &&& h[v][k].loss <= LOSS_ONE
        &&& h[v][k].capacity_kbps > 0
        &&& 0 < h[v][k].retry_delay_ms <= LOCAL_COOLDOWN_MAX_MS
    } by {
        assert(v < g[v][k].next < g.len());
    }
    assert forall|v: int, j: int, k: int|
        0 <= v < h.len() && 0 <= j < k < h[v].len() implies (#[trigger] h[v][j]).channel_id != (
    #[trigger] h[v][k]).channel_id by {
        assert(g[v][j].channel_id != g[v][k].channel_id);
    }
}

pub proof fn lemma_position(edges: Seq<Edge>, channel_id: u16)
    requires
        has_channel(edges, channel_id),
    ensures
        0 <= position(edges, channel_id) < edges.len(),
        edges[position(edges, channel_id)].channel_id == channel_id,
    decreases edges.len(),
{
    if edges[0].channel_id != channel_id {
        let k = choose|k: int| 0 <= k < edges.len() && (#[trigger] edges[k]).channel_id
            == channel_id;
        assert(edges.drop_first()[k - 1].channel_id == channel_id);
        lemma_position(edges.drop_first(), channel_id);
    }
}

/// In a node without repeated channels, a channel stands where its edge is.
pub proof fn lemma_position_unique(edges: Seq<Edge>, k: int)
    requires
        0 <= k < edges.len(),
        forall|i: int, j: int|
            0 <= i < j < edges.len() ==> (#[trigger] edges[i]).channel_id != (
            #[trigger] edges[j]).channel_id,
    ensures
        has_channel(edges, edges[k].channel_id),
        position(edges, edges[k].channel_id) == k,
{
    let p = position(edges, edges[k].channel_id);
    lemma_position(edges, edges[k].channel_id);
    if p < k {
        assert(edges[p].channel_id != edges[k].channel_id);
    } else if k < p {
        assert(edges[k].channel_id != edges[p].channel_id);
    }
}

proof fn lemma_position_topology(a: Seq<Edge>, b: Seq<Edge>, channel_id: u16)
    requires
        a.len() == b.len(),
        forall|k: int| 0 <= k < a.len() ==> (#[trigger] a[k]).channel_id == b[k].channel_id,
    ensures
        position(a, channel_id) == position(b, channel_id),
    decreases a.len(),
{
    if a.len() > 0 {
        assert forall|k: int| 0 <= k < a.len() - 1 implies (
        #[trigger] a.drop_first()[k]).channel_id == b.drop_first()[k].channel_id by {
            assert(a[k + 1].channel_id == b[k + 1].channel_id);
        }
        lemma_position_topology(a.drop_first(), b.drop_first(), channel_id);
    }
}

/// Which plans can be followed depends on the topology alone.
pub proof fn lemma_walkable_topology(g: PlanGraph, h: PlanGraph, v: int, plan: Seq<u16>)
    requires
        same_topology(g, h),
        walkable(g, v, plan),
    ensures
        walkable(h, v, plan),
    decreases plan.len(),
{
    if plan.len() > 0 {
        let c = plan[0];
        assert(g[v].len() == h[v].len());
        assert forall|k: int| 0 <= k < g[v].len() implies (#[trigger] g[v][k]).channel_id
            == h[v][k].channel_id by {}
        lemma_position_topology(g[v], h[v], c);
        lemma_position(g[v], c);
        let p = position(g[v], c);
        assert(h[v][p].channel_id == c);
        assert(g[v][p].next == h[v][p].next);
        lemma_walkable_topology(g, h, g[v][p].next as int, plan.drop_first());
    }
}

// ---------------------------------------------------------------------------
// Laws
// ---------------------------------------------------------------------------

/// A way from the source to node `v` over edges that take packets.
pub open spec fn is_path(g: PlanGraph, elapsed_ms: u64, path: Seq<EdgeId>, v: int) -> bool
    decreases path.len(),
{
    if path.len() == 0 {
        v == 0
    } else {
        let id = path.last();
        &&& is_edge(g, id)
        &&& allowed(edge_of(g, id), elapsed_ms)
        &&& edge_of(g, id).next == v
        &&& is_path(g, elapsed_ms, path.drop_last(), id.node as int)
    }
}

/// When a packet arrives at the end of a path.
pub open spec fn path_arrival(g: PlanGraph, q: Search, path: Seq<EdgeId>) -> u64
    decreases path.len(),
{
    if path.len() == 0 {
        search_start(q)
    } else {
        arrives_at(
            edge_of(g, path.last()),
            path_arrival(g, q, path.drop_last()),
            q.bytes as nat,
        )
    }
}

/// The path goes through the forced edge, if there is one.
pub open spec fn goes_through(q: Search, path: Seq<EdgeId>) -> bool {
    q.forced is Some && path.contains(q.forced->0)
}

proof fn lemma_goes_through_push(q: Search, path: Seq<EdgeId>)
    requires
        path.len() > 0,
    ensures
        goes_through(q, path) == (goes_through(q, path.drop_last()) || q.forced == Some(
            path.last(),
        )),
{
    let front = path.drop_last();
    if goes_through(q, path) {
        let i = choose|i: int| 0 <= i < path.len() && path[i] == q.forced->0;
        if i < front.len() {
            assert(front[i] == q.forced->0);
        }
    }
    if goes_through(q, front) {
        let i = choose|i: int| 0 <= i < front.len() && front[i] == q.forced->0;
        assert(path[i] == q.forced->0);
    }
    if q.forced == Some(path.last()) {
        assert(path[path.len() - 1] == q.forced->0);
    }
}

proof fn lemma_arrival_monotonic(edge: Edge, a: u64, b: u64, bytes: nat)
    requires
        a <= b,
    ensures
        arrives_at(edge, a, bytes) <= arrives_at(edge, b, bytes),
        arrives_at(edge, u64::MAX, bytes) == u64::MAX,
{
}

/// What is traced back from a label is a path that arrives when the label says.
proof fn lemma_trace(g: PlanGraph, q: Search, t: TableState, n: nat, through: bool, v: int)
    requires
        labels_hold(g, q, t, n),
        0 <= v < g.len(),
        label(t, through, v).arrival < u64::MAX,
    ensures
        trace(t, through, v) is Some,
        is_path(g, q.elapsed_ms, trace(t, through, v)->0, v),
        path_arrival(g, q, trace(t, through, v)->0) == label(t, through, v).arrival,
        goes_through(q, trace(t, through, v)->0) == through,
    decreases v,
{
    assert(label_holds(g, q, t, n, through, v));
    if v == 0 {
        assert(label(t, true, 0) == no_label());
    } else {
        let (before, id) = label(t, through, v).from->0;
        lemma_trace(g, q, t, n, before, id.node as int);
        let path = trace(t, through, v)->0;
        let front = trace(t, before, id.node as int)->0;
        assert(path == front.push(id));
        assert(path.drop_last() =~= front);
        lemma_goes_through_push(q, path);
    }
}

proof fn lemma_settled(g: PlanGraph, q: Search, n: nat)
    requires
        plan_graph_wf(g),
        n < g.len(),
    ensures
        labels_hold(g, q, relax_nodes(g, q, n), n),
        settled(g, q, relax_nodes(g, q, n), n),
    decreases n,
{
    lemma_labels(g, q, n);
    if n > 0 {
        lemma_settled(g, q, (n - 1) as nat);
        let v = n - 1;
        let before = relax_nodes(g, q, (n - 1) as nat);
        assert(labels_hold(g, q, before, n)) by {
            assert forall|b: bool, w: int| 0 <= w < g.len() implies #[trigger] label_holds(
                g,
                q,
                before,
                n,
                b,
                w,
            ) by {
                assert(label_holds(g, q, before, (n - 1) as nat, b, w));
            }
        }
        let k = g[v].len();
        lemma_relax_edges_hold(g, q, before, n, false, v, k);
        let plain = relax_edges(g, q, before, false, v, k);
        lemma_relax_edges_hold(g, q, plain, n, true, v, k);
        let after = relax_nodes(g, q, n);
        assert forall|through: bool, w: int|
            0 <= w < n && (through ==> q.forced is Some) implies #[trigger] node_settled(
            g,
            q,
            after,
            through,
            w,
        ) by {
            assert forall|j: int| 0 <= j < g[w].len() implies edge_settled(
                g,
                q,
                after,
                through,
                #[trigger] edge_id(w, j),
            ) by {
                let id = edge_id(w, j);
                let next = g[w][j].next as int;
                let other = through || q.forced == Some(id);
                assert(w < next < g.len());
                assert(label(after, through, w) == label(plain, through, w));
                assert(label(plain, through, w) == label(before, through, w));
                assert(label(after, other, next).arrival <= label(plain, other, next).arrival);
                assert(label(plain, other, next).arrival <= label(before, other, next).arrival);
                if w < v {
                    assert(node_settled(g, q, before, through, w));
                    assert(edge_settled(g, q, before, through, id));
                } else if !through {
                    assert(edge_settled(g, q, plain, through, id));
                }
            }
        }
    }
}

/// No path arrives earlier than the label of its end says.
proof fn lemma_label_is_lower_bound(
    g: PlanGraph,
    q: Search,
    t: TableState,
    n: nat,
    path: Seq<EdgeId>,
    v: int,
)
    requires
        plan_graph_wf(g),
        labels_hold(g, q, t, n),
        settled(g, q, t, n),
        n == g.len() - 1,
        0 <= v < g.len(),
        is_path(g, q.elapsed_ms, path, v),
    ensures
        label(t, goes_through(q, path), v).arrival <= path_arrival(g, q, path),
    decreases path.len(),
{
    if path.len() > 0 {
        let id = path.last();
        let front = path.drop_last();
        let u = id.node as int;
        lemma_label_is_lower_bound(g, q, t, n, front, u);
        lemma_goes_through_push(q, path);
        let through = goes_through(q, front);
        assert(id == edge_id(u, id.edge as int));
        assert(u < g[u][id.edge as int].next < g.len());
        assert(node_settled(g, q, t, through, u));
        assert(edge_settled(g, q, t, through, edge_id(u, id.edge as int)));
        lemma_arrival_monotonic(
            edge_of(g, id),
            label(t, through, u).arrival,
            path_arrival(g, q, front),
            q.bytes as nat,
        );
    }
}

/// The path that is chosen leads to the destination over edges that take packets, through
/// the forced edge if there is one, and no other such path arrives earlier. None is chosen
/// only where no such path arrives within the range of virtual time.
pub proof fn law_best_path_is_optimal(g: PlanGraph, q: Search, other: Seq<EdgeId>)
    requires
        plan_graph_wf(g),
    ensures
        match best_path(g, q) {
            Some(path) => {
                &&& is_path(g, q.elapsed_ms, path, g.len() - 1)
                &&& goes_through(q, path) == (q.forced is Some)
                &&& is_path(g, q.elapsed_ms, other, g.len() - 1) && goes_through(q, other) == (
                q.forced is Some) ==> path_arrival(g, q, path) <= path_arrival(g, q, other)
            },
            None => is_path(g, q.elapsed_ms, other, g.len() - 1) && goes_through(q, other) == (
            q.forced is Some) ==> path_arrival(g, q, other) == u64::MAX,
        },
{
    let n = (g.len() - 1) as nat;
    let t = relax_nodes(g, q, n);
    let through = q.forced is Some;
    lemma_settled(g, q, n);
    if label(t, through, n as int).arrival < u64::MAX {
        lemma_trace(g, q, t, n, through, n as int);
    }
    if is_path(g, q.elapsed_ms, other, n as int) && goes_through(q, other) == through {
        lemma_label_is_lower_bound(g, q, t, n, other, n as int);
    }
}

/// The edges of a path exist and take packets, and its first one leaves the source.
pub proof fn lemma_path_edges(g: PlanGraph, elapsed_ms: u64, path: Seq<EdgeId>, v: int)
    requires
        is_path(g, elapsed_ms, path, v),
    ensures
        forall|i: int|
            0 <= i < path.len() ==> is_edge(g, #[trigger] path[i]) && allowed(
                edge_of(g, path[i]),
                elapsed_ms,
            ),
        path.len() > 0 ==> path[0].node == 0,
    decreases path.len(),
{
    reveal_with_fuel(is_path, 2);
    if path.len() > 0 {
        let front = path.drop_last();
        lemma_path_edges(g, elapsed_ms, front, path.last().node as int);
        assert forall|i: int| 0 <= i < path.len() implies is_edge(g, #[trigger] path[i])
            && allowed(edge_of(g, path[i]), elapsed_ms) by {
            if i < front.len() {
                assert(front[i] == path[i]);
            }
        }
        if path.len() > 1 {
            assert(front[0] == path[0]);
        }
    }
}

/// Edge `i` of the path starts where the one before it ends.
pub open spec fn linked(g: PlanGraph, path: Seq<EdgeId>, i: int) -> bool {
    edge_of(g, path[i - 1]).next == path[i].node
}

/// Each edge of a path starts where the one before it ends.
pub proof fn lemma_path_links(g: PlanGraph, elapsed_ms: u64, path: Seq<EdgeId>, v: int)
    requires
        is_path(g, elapsed_ms, path, v),
    ensures
        forall|i: int| 0 < i < path.len() ==> #[trigger] linked(g, path, i),
        path.len() > 0 ==> edge_of(g, path.last()).next == v,
    decreases path.len(),
{
    if path.len() > 0 {
        let front = path.drop_last();
        lemma_path_links(g, elapsed_ms, front, path.last().node as int);
        assert forall|i: int| 0 < i < path.len() implies #[trigger] linked(g, path, i) by {
            if i < front.len() {
                assert(linked(g, front, i));
                assert(front[i - 1] == path[i - 1]);
                assert(front[i] == path[i]);
            } else {
                assert(front.last() == path[i - 1]);
            }
        }
    }
}

proof fn lemma_channels_walk(g: PlanGraph, path: Seq<EdgeId>, i: int)
    requires
        plan_graph_wf(g),
        0 <= i <= path.len(),
        forall|j: int| 0 <= j < path.len() ==> is_edge(g, #[trigger] path[j]),
        forall|j: int| 0 < j < path.len() ==> #[trigger] linked(g, path, j),
    ensures
        i < path.len() ==> walkable(g, path[i].node as int, channels_of(g, path).skip(i)),
    decreases path.len() - i,
{
    reveal_with_fuel(walkable, 2);
    if i < path.len() {
        let id = path[i];
        let v = id.node as int;
        let plan = channels_of(g, path).skip(i);
        assert(is_edge(g, id));
        assert(plan[0] == g[v][id.edge as int].channel_id);
        lemma_position_unique(g[v], id.edge as int);
        assert(plan.drop_first() =~= channels_of(g, path).skip(i + 1));
        lemma_channels_walk(g, path, i + 1);
        if i + 1 < path.len() {
            assert(linked(g, path, i + 1));
        }
    }
}

/// A route plan can be followed, channel by channel, from the source.
pub proof fn law_plan_is_walkable(g: PlanGraph, elapsed_ms: u64, bytes: usize, sample: bool)
    requires
        plan_graph_wf(g),
        planned(g, elapsed_ms, bytes, sample).1 is Some,
    ensures
        walkable(g, 0, planned(g, elapsed_ms, bytes, sample).1->0),
        g.len() > 1 ==> planned(g, elapsed_ms, bytes, sample).1->0.len() > 0,
{
    let forced = if sample {
        sampling_edge(g, elapsed_ms)
    } else {
        None
    };
    let q = Search { elapsed_ms, bytes, forced };
    law_best_path_is_optimal(g, q, Seq::empty());
    let path = best_path(g, q)->0;
    lemma_path_edges(g, elapsed_ms, path, g.len() - 1);
    lemma_path_links(g, elapsed_ms, path, g.len() - 1);
    let plan = channels_of(g, path);
    if path.len() > 0 {
        lemma_channels_walk(g, path, 0);
        assert(plan.skip(0) =~= plan);
    }
}

/// The edge that is sampled takes packets, leaves a node that can be reached, and no other
/// such edge has an older sample.
pub proof fn law_sampling_takes_the_oldest(g: PlanGraph, elapsed_ms: u64, id: EdgeId)
    requires
        plan_graph_wf(g),
        is_edge(g, id),
        id.node < g.len() - 1,
        allowed(edge_of(g, id), elapsed_ms),
        scan_nodes(g, elapsed_ms, (g.len() - 1) as nat).reachable[id.node as int],
    ensures
        sampling_edge(g, elapsed_ms) is Some,
        is_edge(g, sampling_edge(g, elapsed_ms)->0),
        allowed(edge_of(g, sampling_edge(g, elapsed_ms)->0), elapsed_ms),
        !sampled_before(
            edge_of(g, id).last_sampled,
            edge_of(g, sampling_edge(g, elapsed_ms)->0).last_sampled,
        ),
{
    lemma_scan_nodes(g, elapsed_ms, (g.len() - 1) as nat);
    assert(scanned(g, elapsed_ms, (g.len() - 1) as nat, id));
}

/// The edge leaves one of the first `n` nodes, can be reached and takes packets.
pub open spec fn scanned(g: PlanGraph, elapsed_ms: u64, n: nat, id: EdgeId) -> bool {
    &&& is_edge(g, id)
    &&& id.node < n
    &&& allowed(edge_of(g, id), elapsed_ms)
    &&& scan_nodes(g, elapsed_ms, n).reachable[id.node as int]
}

/// The edge is no better candidate than the selected one.
pub open spec fn not_better(g: PlanGraph, s: SampleScan, id: EdgeId) -> bool {
    s.selected is Some && !sampled_before(
        edge_of(g, id).last_sampled,
        edge_of(g, s.selected->0).last_sampled,
    )
}

proof fn lemma_scan_edges(g: PlanGraph, elapsed_ms: u64, s: SampleScan, v: int, k: nat)
    requires
        plan_graph_wf(g),
        0 <= v < g.len(),
        k <= g[v].len(),
        s.reachable.len() == g.len(),
        s.selected is Some ==> is_edge(g, s.selected->0) && allowed(
            edge_of(g, s.selected->0),
            elapsed_ms,
        ),
    ensures
        ({
            let r = scan_edges(g, elapsed_ms, s, v, k);
            &&& r.reachable.len() == g.len()
            &&& r.selected is Some ==> is_edge(g, r.selected->0) && allowed(
                edge_of(g, r.selected->0),
                elapsed_ms,
            )
            &&& forall|w: int| 0 <= w <= v ==> r.reachable[w] == s.reachable[w]
            &&& forall|j: int|
                0 <= j < k && allowed(g[v][j], elapsed_ms) ==> not_better(
                    g,
                    r,
                    #[trigger] edge_id(v, j),
                )
            &&& forall|id: EdgeId| #[trigger] not_better(g, s, id) ==> not_better(g, r, id)
        }),
    decreases k,
{
    if k > 0 {
        lemma_scan_edges(g, elapsed_ms, s, v, (k - 1) as nat);
        let before = scan_edges(g, elapsed_ms, s, v, (k - 1) as nat);
        let id = edge_id(v, k - 1);
        let r = scan_edges(g, elapsed_ms, s, v, k);
        assert(edge_of(g, id) == g[v][k - 1]);
        assert(v < g[v][k - 1].next < g.len());
        assert forall|other: EdgeId| #[trigger] not_better(g, before, other) implies not_better(
            g,
            r,
            other,
        ) by {}
        assert forall|j: int| 0 <= j < k && allowed(g[v][j], elapsed_ms) implies not_better(
            g,
            r,
            #[trigger] edge_id(v, j),
        ) by {
            if j < k - 1 {
                assert(not_better(g, before, edge_id(v, j)));
            }
        }
        assert forall|other: EdgeId| #[trigger] not_better(g, s, other) implies not_better(
            g,
            r,
            other,
        ) by {
            assert(not_better(g, before, other));
        }
    }
}

proof fn lemma_scan_nodes(g: PlanGraph, elapsed_ms: u64, n: nat)
    requires
        plan_graph_wf(g),
        n < g.len(),
    ensures
        ({
            let s = scan_nodes(g, elapsed_ms, n);
            &&& s.reachable.len() == g.len()
            &&& s.selected is Some ==> is_edge(g, s.selected->0) && allowed(
                edge_of(g, s.selected->0),
                elapsed_ms,
            )
            &&& forall|id: EdgeId| #[trigger]
                scanned(g, elapsed_ms, n, id) ==> not_better(g, s, id)
        }),
    decreases n,
{
    if n > 0 {
        lemma_scan_nodes(g, elapsed_ms, (n - 1) as nat);
        let before = scan_nodes(g, elapsed_ms, (n - 1) as nat);
        let v = n - 1;
        let s = scan_nodes(g, elapsed_ms, n);
        if before.reachable[v] {
            lemma_scan_edges(g, elapsed_ms, before, v, g[v].len());
        }
        assert forall|id: EdgeId| #[trigger] scanned(g, elapsed_ms, n, id) implies not_better(
            g,
            s,
            id,
        ) by {
            if id.node < n - 1 {
                assert(scanned(g, elapsed_ms, (n - 1) as nat, id));
                assert(not_better(g, before, id));
            } else {
                assert(id == edge_id(v, id.edge as int));
                assert(edge_of(g, id) == g[v][id.edge as int]);
            }
        }
    }
}

/// A local channel that refused a packet takes none for its retry delay, which doubles up
/// to 200 ms: 50, 100, 200, 200, ...
pub proof fn law_cooldown_backs_off(edge: Edge, elapsed_ms: u64, later_ms: u64)
    requires
        edge.retry_delay_ms <= LOCAL_COOLDOWN_MAX_MS,
        elapsed_ms + edge.retry_delay_ms <= u64::MAX,
    ensures
        ({
            let failed = failed_edge(edge, elapsed_ms);
            &&& allowed(failed, later_ms) == (later_ms >= elapsed_ms + edge.retry_delay_ms)
            &&& edge.retry_delay_ms == 50 ==> failed.retry_delay_ms == 100
            &&& edge.retry_delay_ms == 100 ==> failed.retry_delay_ms == 200
            &&& edge.retry_delay_ms == 200 ==> failed.retry_delay_ms == 200
        }),
{
}

/// Resting a local channel keeps the graph valid.
pub proof fn lemma_send_failed(g: PlanGraph, channel_id: u16, elapsed_ms: u64)
    requires
        plan_graph_wf(g),
        has_channel(g[0], channel_id),
    ensures
        plan_graph_wf(send_failed(g, channel_id, elapsed_ms)),
        same_topology(g, send_failed(g, channel_id, elapsed_ms)),
{
    lemma_position(g[0], channel_id);
    let k = position(g[0], channel_id);
    let id = EdgeId { node: 0, edge: k as usize };
    assert(edge_of(g, id) == g[0][k]);
    lemma_set_edge(g, id, failed_edge(edge_of(g, id), elapsed_ms));
}

/// An answer that is not outdated ends the cooldown of the first channel, and the retry delay
/// starts again at 50 ms.
pub proof fn law_answer_ends_the_cooldown(g: PlanGraph, plan: Seq<u16>, at: u64)
    requires
        plan_graph_wf(g),
        walkable(g, 0, plan),
        plan.len() > 0,
        observes(g[0][position(g[0], plan[0])], at),
    ensures
        ({
            let k = position(g[0], plan[0]);
            let first = feedback(g, plan, at, true)[0][k];
            first.cooldown_until == 0 && first.retry_delay_ms == 50
        }),
{
    let k = position(g[0], plan[0]);
    lemma_position(g[0], plan[0]);
    lemma_observed_shape(g, 0, plan, at, true);
    assert(edge_of(g, EdgeId { node: 0, edge: k as usize }) == g[0][k]);
}

/// Scoring a plan keeps the shape of the graph.
proof fn lemma_observed_shape(g: PlanGraph, v: int, plan: Seq<u16>, at: u64, success: bool)
    requires
        plan_graph_wf(g),
        walkable(g, v, plan),
    ensures
        ({
            let h = observed(g, v, plan, at, success);
            &&& h.len() == g.len()
            &&& forall|u: int| 0 <= u < g.len() ==> (#[trigger] h[u]).len() == g[u].len()
        }),
    decreases plan.len(),
{
    if plan.len() > 0 {
        lemma_position(g[v], plan[0]);
        let id = EdgeId { node: v as usize, edge: position(g[v], plan[0]) as usize };
        let edge = edge_of(g, id);
        assert(edge == g[v][position(g[v], plan[0])]);
        let next = set_edge(g, id, observed_edge(edge, at, success));
        lemma_set_edge(g, id, observed_edge(edge, at, success));
        lemma_walkable_topology(g, next, edge.next as int, plan.drop_first());
        lemma_observed_shape(next, edge.next as int, plan.drop_first(), at, success);
    }
}

/// A local channel that refused a packet is not the first of any plan made before its
/// retry delay is over.
pub proof fn law_failed_channel_is_avoided(
    g: PlanGraph,
    channel_id: u16,
    elapsed_ms: u64,
    later_ms: u64,
    bytes: usize,
    sample: bool,
)
    requires
        plan_graph_wf(g),
        has_channel(g[0], channel_id),
        later_ms < saturated(elapsed_ms + g[0][position(g[0], channel_id)].retry_delay_ms),
    ensures
        ({
            let rested = send_failed(g, channel_id, elapsed_ms);
            planned(rested, later_ms, bytes, sample).1 matches Some(plan) ==> plan.len() == 0
                || plan[0] != channel_id
        }),
{
    let rested = send_failed(g, channel_id, elapsed_ms);
    lemma_position(g[0], channel_id);
    let k = position(g[0], channel_id);
    lemma_send_failed(g, channel_id, elapsed_ms);
    let forced = if sample {
        sampling_edge(rested, later_ms)
    } else {
        None
    };
    let q = Search { elapsed_ms: later_ms, bytes, forced };
    law_best_path_is_optimal(rested, q, Seq::empty());
    if planned(rested, later_ms, bytes, sample).1 is Some {
        let path = best_path(rested, q)->0;
        lemma_path_edges(rested, later_ms, path, rested.len() - 1);
        if path.len() > 0 {
            assert(is_edge(rested, path[0]));
            assert(allowed(edge_of(rested, path[0]), later_ms));
            let j = path[0].edge as int;
            if rested[0][j].channel_id == channel_id && j != k {
                assert(rested[0][k].channel_id == channel_id);
                if j < k {
                    assert(rested[0][j].channel_id != rested[0][k].channel_id);
                } else {
                    assert(rested[0][k].channel_id != rested[0][j].channel_id);
                }
            }
        }
    }
}

/// A local channel that takes packets.
pub open spec fn open_channel(g: PlanGraph, elapsed_ms: u64, channel_id: u16) -> bool {
    exists|k: int|
        0 <= k < g[0].len() && (#[trigger] g[0][k]).channel_id == channel_id && allowed(
            g[0][k],
            elapsed_ms,
        )
}

/// The graphs have the same local channels. Of them this one takes no packets in `h`, and each
/// other one takes packets in `h` as it does in `g`.
pub open spec fn rests(g: PlanGraph, h: PlanGraph, channel_id: u16, elapsed_ms: u64) -> bool {
    &&& g.len() > 0
    &&& h.len() > 0
    &&& h[0].len() == g[0].len()
    &&& forall|k: int|
        0 <= k < g[0].len() ==> {
            &&& (#[trigger] h[0][k]).channel_id == g[0][k].channel_id
            &&& allowed(h[0][k], elapsed_ms) == (g[0][k].channel_id != channel_id && allowed(
                g[0][k],
                elapsed_ms,
            ))
        }
}

/// Taking edges changes neither what they are nor when they take packets.
proof fn lemma_reserved_rests(
    g: PlanGraph,
    path: Seq<EdgeId>,
    ready: u64,
    elapsed_ms: u64,
    bytes: nat,
    sample: bool,
)
    requires
        g.len() > 0,
        forall|i: int| 0 <= i < path.len() ==> is_edge(g, #[trigger] path[i]),
    ensures
        ({
            let h = reserved(g, path, ready, elapsed_ms, bytes, sample);
            &&& h.len() == g.len()
            &&& h[0].len() == g[0].len()
            &&& forall|k: int|
                0 <= k < g[0].len() ==> (#[trigger] h[0][k]).channel_id == g[0][k].channel_id
                    && h[0][k].cooldown_until == g[0][k].cooldown_until
        }),
    decreases path.len(),
{
    if path.len() > 0 {
        let id = path[0];
        assert(is_edge(g, id));
        let edge = edge_of(g, id);
        let finished = finished_at(edge, ready, bytes);
        let taken = Edge {
            virtual_free_at: finished,
            last_sampled: if sample {
                Some(elapsed_ms)
            } else {
                edge.last_sampled
            },
            ..edge
        };
        let next = set_edge(g, id, taken);
        let rest = path.drop_first();
        assert forall|i: int| 0 <= i < rest.len() implies is_edge(next, #[trigger] rest[i]) by {
            assert(is_edge(g, path[i + 1]));
        }
        lemma_reserved_rests(
            next,
            rest,
            saturated(finished + edge.latency_ms * 65536),
            elapsed_ms,
            bytes,
            sample,
        );
    }
}

/// After a refusal the channel rests, and so it does after the next plan, whose first channel
/// takes packets.
pub proof fn lemma_failed_channel_rests(
    g: PlanGraph,
    channel_id: u16,
    elapsed_ms: u64,
    bytes: usize,
    sample: bool,
)
    requires
        plan_graph_wf(g),
        has_channel(g[0], channel_id),
        elapsed_ms < u64::MAX,
    ensures
        ({
            let rested = send_failed(g, channel_id, elapsed_ms);
            let (h, plan) = planned(rested, elapsed_ms, bytes, sample);
            &&& rests(g, rested, channel_id, elapsed_ms)
            &&& rests(g, h, channel_id, elapsed_ms)
            &&& plan is Some && plan->0.len() > 0 ==> open_channel(h, elapsed_ms, plan->0[0])
        }),
{
    let rested = send_failed(g, channel_id, elapsed_ms);
    let (h, plan) = planned(rested, elapsed_ms, bytes, sample);
    lemma_position(g[0], channel_id);
    let at = position(g[0], channel_id);
    lemma_send_failed(g, channel_id, elapsed_ms);
    assert(rests(g, rested, channel_id, elapsed_ms)) by {
        assert forall|k: int| 0 <= k < g[0].len() implies {
            &&& (#[trigger] rested[0][k]).channel_id == g[0][k].channel_id
            &&& allowed(rested[0][k], elapsed_ms) == (g[0][k].channel_id != channel_id && allowed(
                g[0][k],
                elapsed_ms,
            ))
        } by {
            assert(g[0][at].channel_id == channel_id);
            assert(g[0][at].retry_delay_ms > 0);
            if k < at {
                assert(g[0][k].channel_id != g[0][at].channel_id);
            } else if at < k {
                assert(g[0][at].channel_id != g[0][k].channel_id);
            }
        }
    }
    let forced = if sample {
        sampling_edge(rested, elapsed_ms)
    } else {
        None
    };
    let q = Search { elapsed_ms, bytes, forced };
    law_best_path_is_optimal(rested, q, Seq::empty());
    if plan is Some {
        let path = best_path(rested, q)->0;
        lemma_path_edges(rested, elapsed_ms, path, rested.len() - 1);
        lemma_reserved_rests(
            rested,
            path,
            saturated(elapsed_ms * 65536),
            elapsed_ms,
            bytes as nat,
            sample,
        );
        assert(rests(g, h, channel_id, elapsed_ms)) by {
            assert forall|k: int| 0 <= k < g[0].len() implies {
                &&& (#[trigger] h[0][k]).channel_id == g[0][k].channel_id
                &&& allowed(h[0][k], elapsed_ms) == (g[0][k].channel_id != channel_id && allowed(
                    g[0][k],
                    elapsed_ms,
                ))
            } by {
                assert(rested[0][k].channel_id == g[0][k].channel_id);
            }
        }
        if path.len() > 0 {
            let k = path[0].edge as int;
            assert(is_edge(rested, path[0]));
            assert(edge_of(rested, path[0]) == rested[0][k]);
            assert(h[0][k].cooldown_until == rested[0][k].cooldown_until);
            assert(h[0][k].channel_id == plan->0[0]);
        }
    }
}

/// An observation that is older than the newest one changes nothing, and the loss score
/// moves towards zero on an answer and towards one otherwise.
pub proof fn law_observation(edge: Edge, at: u64)
    requires
        edge.loss <= LOSS_ONE,
    ensures
        !observes(edge, at) ==> observed_edge(edge, at, true) == edge && observed_edge(
            edge,
            at,
            false,
        ) == edge,
        observed_edge(edge, at, true).loss <= edge.loss,
        edge.loss <= observed_edge(edge, at, false).loss <= LOSS_ONE,
        edge.loss <= failed_edge(edge, at).loss <= LOSS_ONE,
        observes(edge, at) ==> observed_edge(edge, at, false).loss <= failed_edge(edge, at).loss,
{
}

/// The penalty of an edge is between one and sixteen.
pub proof fn law_penalty_is_bounded(loss: u32)
    requires
        loss <= LOSS_ONE,
    ensures
        65536 <= penalty(loss) <= 16 * 65536,
{
    assert(0 <= loss * loss <= 4_294_836_225) by (nonlinear_arith)
        requires
            loss <= 65535,
    ;
}

/// A greater loss has no smaller penalty.
proof fn lemma_penalty_grows(loss: u32, worse: u32)
    requires
        loss <= worse <= LOSS_ONE,
    ensures
        penalty(loss) <= penalty(worse),
{
    assert(loss * loss <= worse * worse) by (nonlinear_arith)
        requires
            0 <= loss <= worse,
    ;
}

/// Rounded division grows with what is divided and falls with the divisor.
proof fn lemma_div_up_grows(a: int, b: int, c: int, d: int)
    requires
        a <= b,
        0 < d <= c,
    ensures
        div_up(a, c) <= div_up(b, d),
{
    if a > 0 {
        vstd::arithmetic::div_mod::lemma_div_is_ordered(a - 1, b - 1, c);
        vstd::arithmetic::div_mod::lemma_div_is_ordered_by_denominator(b - 1, d, c);
    } else if b > 0 {
        vstd::arithmetic::div_mod::lemma_div_pos_is_pos(b - 1, d);
    }
}

/// Sixteen times as much takes at most sixteen times as long.
proof fn lemma_div_up_scales(a: int, c: int)
    requires
        0 <= a,
        0 < c,
    ensures
        div_up(16 * a, c) <= 16 * div_up(a, c),
{
    if a > 0 {
        let q = div_up(a, c);
        vstd::arithmetic::div_mod::lemma_fundamental_div_mod(a - 1, c);
        vstd::arithmetic::div_mod::lemma_mod_bound(a - 1, c);
        assert(c * ((a - 1) / c + 1) == c * ((a - 1) / c) + c) by (nonlinear_arith);
        assert(a <= c * q);
        assert(c * (16 * q) == 16 * (c * q)) by (nonlinear_arith);
        assert(16 * a - 1 < c * (16 * q));
        vstd::arithmetic::div_mod::lemma_multiply_divide_lt(16 * a - 1, c, 16 * q);
    }
}

/// Without loss an edge takes the nominal time for a packet. The time does not shrink with
/// more bytes, with more loss or with less capacity.
pub proof fn law_service_time_is_monotonic(edge: Edge, worse: Edge, bytes: nat, more: nat)
    requires
        bytes <= more,
        edge.loss <= worse.loss <= LOSS_ONE,
        0 < worse.capacity_kbps <= edge.capacity_kbps,
    ensures
        edge.loss == 0 ==> service_time(edge, bytes) == saturated(
            div_up(bytes as int * 8 * 65536, edge.capacity_kbps as int),
        ),
        service_time(edge, bytes) <= service_time(worse, more),
{
    lemma_penalty_grows(edge.loss, worse.loss);
    law_penalty_is_bounded(edge.loss);
    let p = penalty(edge.loss);
    let w = penalty(worse.loss);
    assert(bytes * 8 * p <= more * 8 * w) by (nonlinear_arith)
        requires
            0 <= bytes <= more,
            0 <= p <= w,
    ;
    lemma_div_up_grows(
        bytes * 8 * p,
        more * 8 * w,
        edge.capacity_kbps as int,
        worse.capacity_kbps as int,
    );
    if edge.loss == 0 {
        assert(p == 65536) by {
            assert(edge.loss * edge.loss == 0) by (nonlinear_arith)
                requires
                    edge.loss == 0,
            ;
        }
    }
}

/// An edge that fails takes longer, but at most sixteen times the nominal time.
pub proof fn law_service_time_is_bounded(edge: Edge, bytes: nat)
    requires
        edge.loss <= LOSS_ONE,
        edge.capacity_kbps > 0,
    ensures
        ({
            let nominal = service_time(Edge { loss: 0, ..edge }, bytes);
            nominal <= service_time(edge, bytes) <= 16 * nominal
        }),
{
    let c = edge.capacity_kbps as int;
    law_service_time_is_monotonic(Edge { loss: 0, ..edge }, edge, bytes, bytes);
    law_penalty_is_bounded(edge.loss);
    let p = penalty(edge.loss);
    let nominal = bytes as int * 8 * 65536;
    assert(bytes * 8 * p <= 16 * nominal) by (nonlinear_arith)
        requires
            0 <= bytes,
            p <= 16 * 65536,
            nominal == bytes * 8 * 65536,
    ;
    lemma_div_up_grows(bytes * 8 * p, 16 * nominal, c, c);
    lemma_div_up_scales(nominal, c);
}

/// The delay before a local channel is tried again after its first, second, third, ...
/// failure in a row.
pub open spec fn retry_delay(failures: nat) -> u64 {
    if failures <= 1 {
        50
    } else if failures == 2 {
        100
    } else {
        200
    }
}

/// What happens to a first edge.
pub enum EdgeEvent {
    /// Its channel refuses a packet.
    Refused { at: u64 },
    /// A sample that was sent over it is answered.
    Answered { at: u64 },
    /// A sample that was sent over it is given up.
    Unanswered { at: u64 },
    /// A packet takes it until this virtual time.
    Taken { until: u64, sampled: Option<u64> },
}

/// The edge after an event.
pub open spec fn edge_after(edge: Edge, event: EdgeEvent) -> Edge {
    match event {
        EdgeEvent::Refused { at } => failed_edge(edge, at),
        EdgeEvent::Answered { at } => if observes(edge, at) {
            Edge {
                cooldown_until: 0,
                retry_delay_ms: LOCAL_COOLDOWN_INITIAL_MS,
                ..observed_edge(edge, at, true)
            }
        } else {
            edge
        },
        EdgeEvent::Unanswered { at } => observed_edge(edge, at, false),
        EdgeEvent::Taken { until, sampled } => Edge {
            virtual_free_at: until,
            last_sampled: sampled,
            ..edge
        },
    }
}

/// The edge after a row of events.
pub open spec fn edge_history(edge: Edge, events: Seq<EdgeEvent>) -> Edge
    decreases events.len(),
{
    if events.len() == 0 {
        edge
    } else {
        edge_after(edge_history(edge, events.drop_last()), events.last())
    }
}

/// The failures since the start, or since the last answer that was not outdated.
pub open spec fn failures_in_row(edge: Edge, events: Seq<EdgeEvent>) -> nat
    decreases events.len(),
{
    if events.len() == 0 {
        0
    } else {
        let before = failures_in_row(edge, events.drop_last());
        match events.last() {
            EdgeEvent::Refused { .. } => before + 1,
            EdgeEvent::Answered { at } => if observes(edge_history(edge, events.drop_last()), at) {
                0
            } else {
                before
            },
            _ => before,
        }
    }
}

/// Whatever happens to a new edge, a refusal rests it for 50 ms where it is the first in a
/// row, for 100 ms where it is the second, and for 200 ms where it is a later one.
pub proof fn law_cooldown_after_failures(start: RouteEdge, events: Seq<EdgeEvent>)
    ensures
        ({
            let edge = edge_history(new_edge(start), events);
            let row = failures_in_row(new_edge(start), events);
            &&& edge.retry_delay_ms == retry_delay(row + 1)
            &&& events.len() > 0 ==> (events.last() matches EdgeEvent::Refused { at }
                ==> edge.cooldown_until == saturated(at + retry_delay(row)))
        }),
    decreases events.len(),
{
    if events.len() > 0 {
        law_cooldown_after_failures(start, events.drop_last());
    }
}

/// A refusal changes one edge: its channel rests, its loss goes halfway to one where the
/// refusal is not outdated, and the virtual time that it is taken for stays.
pub proof fn law_refusal_touches_one_edge(
    g: PlanGraph,
    channel_id: u16,
    elapsed_ms: u64,
    v: int,
    k: int,
)
    requires
        plan_graph_wf(g),
        has_channel(g[0], channel_id),
        0 <= v < g.len(),
        0 <= k < g[v].len(),
    ensures
        ({
            let next = send_failed(g, channel_id, elapsed_ms)[v][k];
            if v == 0 && g[v][k].channel_id == channel_id {
                &&& next == edge_after(g[v][k], EdgeEvent::Refused { at: elapsed_ms })
                &&& next.cooldown_until == saturated(elapsed_ms + g[v][k].retry_delay_ms)
                &&& next.virtual_free_at == g[v][k].virtual_free_at
                &&& if observes(g[v][k], elapsed_ms) {
                    &&& next.loss == g[v][k].loss + (LOSS_ONE - g[v][k].loss) / 2
                    &&& next.last_observation_at == Some(elapsed_ms)
                } else {
                    &&& next.loss == g[v][k].loss
                    &&& next.last_observation_at == g[v][k].last_observation_at
                }
            } else {
                next == g[v][k]
            }
        }),
{
    lemma_position(g[0], channel_id);
    let at = position(g[0], channel_id);
    assert(v == 0 && g[v][k].channel_id == channel_id ==> k == at) by {
        if v == 0 && g[v][k].channel_id == channel_id && k != at {
            if k < at {
                assert(g[0][k].channel_id != g[0][at].channel_id);
            } else {
                assert(g[0][at].channel_id != g[0][k].channel_id);
            }
        }
    }
    assert(edge_of(g, EdgeId { node: 0, edge: at as usize }) == g[0][at]);
}

} // verus!
