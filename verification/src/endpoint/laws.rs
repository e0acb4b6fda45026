//! What holds of every endpoint.
use vstd::prelude::*;

use crate::endpoint::model;
use crate::endpoint::model::{EndpointState, Step};
use crate::endpoint::session;
use crate::kcp;
use crate::machine;
use crate::machine::EventState;
use crate::routing;
use crate::wire;

verus! {

/// No way is longer than the nodes behind its start.
pub proof fn lemma_longest_bound(ends: Seq<Seq<int>>, v: int, k: nat)
    requires
        0 <= v < ends.len(),
        k <= ends[v].len(),
        forall|u: int, j: int|
            0 <= u < ends.len() && 0 <= j < ends[u].len() ==> u < #[trigger] ends[u][j]
                < ends.len(),
    ensures
        model::longest_over(ends, v, k) <= ends.len() - 1 - v,
    decreases ends.len() - v, k,
{
    if k > 0 {
        lemma_longest_bound(ends, v, (k - 1) as nat);
        let next = ends[v][k - 1];
        lemma_longest_bound(ends, next, ends[next].len());
    }
}

/// The longest way over some edges is at least as long as over each of them.
pub proof fn lemma_longest_covers(ends: Seq<Seq<int>>, v: int, k: nat, j: int)
    requires
        0 <= v < ends.len(),
        0 <= j < k <= ends[v].len(),
        v < ends[v][j] < ends.len(),
    ensures
        model::longest(ends, ends[v][j]) + 1 <= model::longest_over(ends, v, k),
    decreases k,
{
    if j < k - 1 {
        lemma_longest_covers(ends, v, (k - 1) as nat, j);
    }
}

/// A plan that can be followed has at most as many channels as the longest way has edges.
pub proof fn lemma_walk_len(g: routing::PlanGraph, v: int, plan: Seq<u16>)
    requires
        routing::plan_graph_wf(g),
        0 <= v < g.len(),
        routing::walkable(g, v, plan),
    ensures
        plan.len() <= model::longest(model::ends_of_plan(g), v),
    decreases plan.len(),
{
    if plan.len() > 0 {
        let ends = model::ends_of_plan(g);
        let p = routing::position(g[v], plan[0]);
        routing::lemma_position(g[v], plan[0]);
        assert(v < g[v][p].next < g.len());
        assert(ends[v][p] == g[v][p].next as int);
        lemma_walk_len(g, g[v][p].next as int, plan.drop_first());
        lemma_longest_covers(ends, v, ends[v].len(), p);
    }
}

/// The lengths of the ways depend on the topology alone.
pub proof fn lemma_same_ends(g: routing::PlanGraph, h: routing::PlanGraph)
    requires
        routing::same_topology(g, h),
    ensures
        model::ends_of_plan(g) == model::ends_of_plan(h),
{
    assert forall|v: int| 0 <= v < g.len() implies #[trigger] model::ends_of_plan(g)[v]
        == model::ends_of_plan(h)[v] by {
        assert(g[v].len() == h[v].len());
        assert(model::ends_of_plan(g)[v] =~= model::ends_of_plan(h)[v]);
    }
    assert(model::ends_of_plan(g) =~= model::ends_of_plan(h));
}

/// A planner that knows more of the same edges is as good for the endpoint.
pub proof fn lemma_planner_kept(
    s: EndpointState,
    h: routing::PlanGraph,
    outstanding: Map<(u64, u64), model::SampleState>,
)
    requires
        model::planner_ok(s.params, s.planner),
        model::samples_ok(s.planner, outstanding),
        routing::plan_graph_wf(h),
        routing::same_topology(s.planner, h),
    ensures
        model::planner_ok(s.params, h),
        model::samples_ok(h, outstanding),
{
    lemma_same_ends(s.planner, h);
    assert forall|id: (u64, u64)| #[trigger] outstanding.contains_key(id) implies routing::walkable(
        h,
        0,
        outstanding[id].route_plan,
    ) by {
        routing::lemma_walkable_topology(s.planner, h, 0, outstanding[id].route_plan);
    }
}

/// Every action among the first ones and the last one is sent well.
pub proof fn lemma_sent_push(
    p: model::EndpointParams,
    g: routing::PlanGraph,
    actions: Seq<machine::ActionState>,
    action: machine::ActionState,
)
    requires
        model::all_sent_well(p, g, actions),
        model::sent_well(p, g, action),
    ensures
        model::all_sent_well(p, g, actions.push(action)),
{
    reveal(model::all_sent_well);
}

/// Whether packets are sent well depends on the topology, not on what is known of the edges.
pub proof fn lemma_sent_topology(
    p: model::EndpointParams,
    g: routing::PlanGraph,
    h: routing::PlanGraph,
    actions: Seq<machine::ActionState>,
)
    requires
        g.len() > 0,
        routing::same_topology(g, h),
        model::all_sent_well(p, g, actions),
    ensures
        model::all_sent_well(p, h, actions),
{
    reveal(model::all_sent_well);
    assert forall|i: int| 0 <= i < actions.len() implies model::sent_well(
        p,
        h,
        #[trigger] actions[i],
    ) by {
        assert(model::sent_well(p, g, actions[i]));
        if let machine::ActionState::SendTransportPacket { channel_id, .. } = actions[i] {
            let k = choose|k: int|
                0 <= k < g[0].len() && (#[trigger] g[0][k]).channel_id == channel_id;
            assert(h[0][k].channel_id == channel_id);
        }
    }
}

/// What a KCP packet has to satisfy depends on the sessions and on what is closed.
pub proof fn lemma_kcp_acceptable_frame(
    s: EndpointState,
    t: EndpointState,
    elapsed_ms: u64,
    peer_seq: u64,
    packet: Seq<u8>,
)
    requires
        s.params == t.params,
        s.sessions == t.sessions,
        s.tombstones == t.tombstones,
    ensures
        model::kcp_acceptable(s, elapsed_ms, peer_seq, packet) == model::kcp_acceptable(
            t,
            elapsed_ms,
            peer_seq,
            packet,
        ),
{
    let conv = kcp::model::conv_of(packet);
    assert(model::addressed_session(s, elapsed_ms, peer_seq, conv) == model::addressed_session(
        t,
        elapsed_ms,
        peer_seq,
        conv,
    ));
}

/// The packet in an acceptable message is acceptable once the message has been admitted.
pub proof fn lemma_admitted_acceptable(
    s: EndpointState,
    elapsed_ms: u64,
    stamp: wire::EnvelopeStamp,
    m: wire::EndpointMessageState,
)
    ensures
        m matches wire::EndpointMessageState::KcpPacket { packet, .. } ==> model::kcp_acceptable(
            s,
            elapsed_ms,
            stamp.seq_id,
            packet,
        ) == model::kcp_acceptable(
            model::admitted(s, elapsed_ms, stamp).0,
            elapsed_ms,
            stamp.seq_id,
            packet,
        ),
{
    if let wire::EndpointMessageState::KcpPacket { packet, .. } = m {
        lemma_kcp_acceptable_frame(
            s,
            model::admitted(s, elapsed_ms, stamp).0,
            elapsed_ms,
            stamp.seq_id,
            packet,
        );
    }
}

/// The metrics decide nothing.
pub proof fn lemma_acceptable_metrics(
    s: EndpointState,
    t: EndpointState,
    elapsed_ms: u64,
    bytes: Seq<u8>,
)
    requires
        t == (EndpointState { metrics: t.metrics, ..s }),
    ensures
        model::received_acceptable(s, elapsed_ms, bytes) == model::received_acceptable(
            t,
            elapsed_ms,
            bytes,
        ),
{
    reveal(model::received_acceptable);
    if let Ok(e) = crate::packet::decode_packet(s.params.envelope_key, bytes) {
        let stamp = wire::stamp_of(e);
        if let Some(plain) = model::opened_message(s.params.message_key, stamp, e.payload) {
            if let Some(m) = wire::decode_endpoint(plain) {
                if let wire::EndpointMessageState::KcpPacket { packet, .. } = m {
                    lemma_kcp_acceptable_frame(s, t, elapsed_ms, stamp.seq_id, packet);
                }
            }
        }
    }
}

} // verus!
