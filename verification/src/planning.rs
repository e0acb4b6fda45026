//! What route planning promises: when a packet leaves each edge of its route, which route
//! comes first, which edges a plan takes, and what becomes of the scores.
use vstd::prelude::*;

use crate::routing::{
    allowed,
    div_up,
    edge_of,
    feedback,
    finished_at,
    goes_through,
    is_edge,
    is_path,
    law_best_path_is_optimal,
    lemma_path_edges,
    lemma_path_links,
    lemma_position_unique,
    linked,
    new_graph,
    observed,
    observed_edge,
    path_arrival,
    penalty,
    plan_graph_wf,
    planned,
    planned_path,
    position,
    reserved,
    same_topology,
    sampling_edge,
    saturated,
    scan_edges,
    scan_nodes,
    send_failed,
    service_time,
    set_edge,
    walkable,
    Edge,
    EdgeId,
    PlanGraph,
    RouteEdge,
    Search,
};

verus! {

// ---------------------------------------------------------------------------
// The time that a packet takes
// ---------------------------------------------------------------------------

/// The work that `bytes` are to an edge, in kilobits per second times virtual time: their
/// bits, made up to sixteen times as many by the square of the loss.
pub open spec fn work_of(edge: Edge, bytes: nat) -> int {
    bytes * 8 * (65536 + 15 * (edge.loss * edge.loss) * 65536 / 4_294_836_225)
}

/// `end` is the first moment at which an edge that starts at `start` has done the work of
/// `bytes`, or the end of virtual time where that comes first.
pub open spec fn ends_at(edge: Edge, bytes: nat, start: int, end: u64) -> bool {
    &&& start <= end
    &&& end < u64::MAX ==> work_of(edge, bytes) <= (end - start) * edge.capacity_kbps
    &&& start < end ==> (end - start - 1) * edge.capacity_kbps < work_of(edge, bytes)
}

/// The least of a time and the end of virtual time.
pub open spec fn capped(t: int) -> int {
    if t <= 0xffff_ffff_ffff_ffff {
        t
    } else {
        0xffff_ffff_ffff_ffff
    }
}

/// When edge `i` of a route starts on a packet that is ready at `elapsed_ms` and has left
/// the edges before it at `ends`: when the packet is there and the edge is free.
pub open spec fn starts_at(
    g: PlanGraph,
    route: Seq<EdgeId>,
    elapsed_ms: u64,
    ends: Seq<u64>,
    i: int,
) -> int {
    let there = if i == 0 {
        capped(elapsed_ms * 65536)
    } else {
        capped(ends[i - 1] + edge_of(g, route[i - 1]).latency_ms * 65536)
    };
    let free = edge_of(g, route[i]).virtual_free_at as int;
    if there >= free {
        there
    } else {
        free
    }
}

/// The edges lead from the source to node `v`, each from where the one before it ends, and
/// each of them is past its cooldown.
pub open spec fn is_route(g: PlanGraph, elapsed_ms: u64, route: Seq<EdgeId>, v: int) -> bool {
    &&& forall|i: int|
        0 <= i < route.len() ==> {
            &&& is_edge(g, #[trigger] route[i])
            &&& edge_of(g, route[i]).cooldown_until <= elapsed_ms
        }
    &&& forall|i: int| 0 < i < route.len() ==> #[trigger] linked(g, route, i)
    &&& if route.len() == 0 {
        v == 0
    } else {
        route[0].node == 0 && edge_of(g, route.last()).next == v
    }
}

/// `ends[i]` is when a packet of `bytes` that is ready at `elapsed_ms` has left edge `i`.
pub open spec fn is_journey(
    g: PlanGraph,
    elapsed_ms: u64,
    bytes: nat,
    route: Seq<EdgeId>,
    ends: Seq<u64>,
) -> bool {
    &&& ends.len() == route.len()
    &&& forall|i: int|
        0 <= i < route.len() ==> ends_at(
            edge_of(g, #[trigger] route[i]),
            bytes,
            starts_at(g, route, elapsed_ms, ends, i),
            ends[i],
        )
}

/// When the packet of a journey is at its destination.
pub open spec fn arrival_of(
    g: PlanGraph,
    elapsed_ms: u64,
    route: Seq<EdgeId>,
    ends: Seq<u64>,
) -> int {
    if route.len() == 0 {
        capped(elapsed_ms * 65536)
    } else {
        capped(ends.last() + edge_of(g, route.last()).latency_ms * 65536)
    }
}

proof fn lemma_div_up_exact(a: int, c: int)
    requires
        0 <= a,
        0 < c,
    ensures
        0 <= div_up(a, c),
        a <= div_up(a, c) * c,
        div_up(a, c) > 0 ==> (div_up(a, c) - 1) * c < a,
{
    if a > 0 {
        vstd::arithmetic::div_mod::lemma_fundamental_div_mod(a - 1, c);
        vstd::arithmetic::div_mod::lemma_mod_bound(a - 1, c);
        vstd::arithmetic::div_mod::lemma_div_pos_is_pos(a - 1, c);
        let q = (a - 1) / c;
        assert((q + 1) * c == c * q + c) by (nonlinear_arith);
        assert(q * c == c * q) by (nonlinear_arith);
    }
}

proof fn lemma_times(x: int, y: int, c: int)
    requires
        x <= y,
        0 < c,
    ensures
        x * c <= y * c,
{
    assert(x * c <= y * c) by (nonlinear_arith)
        requires
            x <= y,
            0 < c,
    ;
}

proof fn lemma_work(edge: Edge, bytes: nat)
    requires
        edge.loss <= 65535,
    ensures
        work_of(edge, bytes) == bytes * 8 * penalty(edge.loss),
        0 <= work_of(edge, bytes),
{
    let loss = edge.loss as int;
    assert(0 <= loss * loss) by (nonlinear_arith)
        requires
            0 <= loss,
    ;
    let p = penalty(edge.loss);
    assert(0 <= bytes * 8 * p) by (nonlinear_arith)
        requires
            0 <= bytes,
            0 <= p,
    ;
}

/// The model finishes a packet when the work is done.
proof fn lemma_finished(edge: Edge, ready: u64, bytes: nat)
    requires
        edge.loss <= 65535,
        edge.capacity_kbps > 0,
    ensures
        ({
            let start = if ready >= edge.virtual_free_at {
                ready
            } else {
                edge.virtual_free_at
            };
            ends_at(edge, bytes, start as int, finished_at(edge, ready, bytes))
        }),
{
    let start = if ready >= edge.virtual_free_at {
        ready
    } else {
        edge.virtual_free_at
    };
    let c = edge.capacity_kbps as int;
    let a = work_of(edge, bytes);
    lemma_work(edge, bytes);
    lemma_div_up_exact(a, c);
    let d = div_up(a, c);
    let end = finished_at(edge, ready, bytes);
    assert(service_time(edge, bytes) == saturated(d));
    if start < end {
        assert(end - start - 1 <= d - 1);
        lemma_times(end - start - 1, d - 1, c);
    }
    if end < u64::MAX {
        assert(end - start == d);
    }
}

/// There is one such moment.
proof fn lemma_ends_once(edge: Edge, bytes: nat, start: int, a: u64, b: u64)
    requires
        edge.capacity_kbps > 0,
        ends_at(edge, bytes, start, a),
        ends_at(edge, bytes, start, b),
    ensures
        a == b,
{
    let c = edge.capacity_kbps as int;
    if a < b {
        lemma_times(a - start, b - start - 1, c);
    } else if b < a {
        lemma_times(b - start, a - start - 1, c);
    }
}

// ---------------------------------------------------------------------------
// Routes
// ---------------------------------------------------------------------------

proof fn lemma_route_is_path(g: PlanGraph, elapsed_ms: u64, route: Seq<EdgeId>, v: int)
    requires
        is_route(g, elapsed_ms, route, v),
    ensures
        is_path(g, elapsed_ms, route, v),
    decreases route.len(),
{
    reveal_with_fuel(is_path, 2);
    if route.len() > 0 {
        let front = route.drop_last();
        let id = route.last();
        assert(is_edge(g, route[route.len() - 1]));
        assert forall|i: int| 0 <= i < front.len() implies is_edge(g, #[trigger] front[i])
            && edge_of(g, front[i]).cooldown_until <= elapsed_ms by {
            assert(front[i] == route[i]);
        }
        assert forall|i: int| 0 < i < front.len() implies #[trigger] linked(g, front, i) by {
            assert(linked(g, route, i));
        }
        if front.len() > 0 {
            assert(linked(g, route, route.len() - 1));
        }
        lemma_route_is_path(g, elapsed_ms, front, id.node as int);
    }
}

proof fn lemma_path_is_route(g: PlanGraph, elapsed_ms: u64, path: Seq<EdgeId>, v: int)
    requires
        is_path(g, elapsed_ms, path, v),
    ensures
        is_route(g, elapsed_ms, path, v),
{
    lemma_path_edges(g, elapsed_ms, path, v);
    lemma_path_links(g, elapsed_ms, path, v);
}

/// Each edge of a route leaves a later node than the ones before it.
proof fn lemma_route_climbs(g: PlanGraph, route: Seq<EdgeId>, i: int, j: int)
    requires
        plan_graph_wf(g),
        forall|k: int| 0 <= k < route.len() ==> is_edge(g, #[trigger] route[k]),
        forall|k: int| 0 < k < route.len() ==> #[trigger] linked(g, route, k),
        0 <= i < j < route.len(),
    ensures
        route[i].node < route[j].node,
    decreases j - i,
{
    let id = route[j - 1];
    assert(linked(g, route, j));
    assert(is_edge(g, id));
    assert(edge_of(g, id) == g[id.node as int][id.edge as int]);
    if i < j - 1 {
        lemma_route_climbs(g, route, i, j - 1);
    }
}

/// The arrival in the model is that of the journey.
proof fn lemma_journey_arrival(
    g: PlanGraph,
    q: Search,
    route: Seq<EdgeId>,
    ends: Seq<u64>,
)
    requires
        plan_graph_wf(g),
        forall|k: int| 0 <= k < route.len() ==> is_edge(g, #[trigger] route[k]),
        is_journey(g, q.elapsed_ms, q.bytes as nat, route, ends),
    ensures
        path_arrival(g, q, route) == arrival_of(g, q.elapsed_ms, route, ends),
    decreases route.len(),
{
    if route.len() > 0 {
        let front = route.drop_last();
        let sooner = ends.drop_last();
        assert forall|k: int| 0 <= k < front.len() implies is_edge(g, #[trigger] front[k]) by {
            assert(front[k] == route[k]);
        }
        assert forall|i: int| 0 <= i < front.len() implies ends_at(
            edge_of(g, #[trigger] front[i]),
            q.bytes as nat,
            starts_at(g, front, q.elapsed_ms, sooner, i),
            sooner[i],
        ) by {
            assert(front[i] == route[i]);
            assert(starts_at(g, front, q.elapsed_ms, sooner, i) == starts_at(
                g,
                route,
                q.elapsed_ms,
                ends,
                i,
            ));
        }
        lemma_journey_arrival(g, q, front, sooner);
        let last = route.len() - 1;
        let id = route[last];
        let edge = edge_of(g, id);
        assert(is_edge(g, id));
        assert(edge == g[id.node as int][id.edge as int]);
        let ready = path_arrival(g, q, front);
        if front.len() > 0 {
            assert(front.last() == route[last - 1]);
            assert(sooner.last() == ends[last - 1]);
        }
        lemma_finished(edge, ready, q.bytes as nat);
        lemma_ends_once(
            edge,
            q.bytes as nat,
            starts_at(g, route, q.elapsed_ms, ends, last),
            ends[last],
            finished_at(edge, ready, q.bytes as nat),
        );
    }
}

// ---------------------------------------------------------------------------
// Plans
// ---------------------------------------------------------------------------

/// What `reserved` does to the edges of a route and to the others.
proof fn lemma_reserved(
    g: PlanGraph,
    route: Seq<EdgeId>,
    ready: u64,
    elapsed_ms: u64,
    bytes: nat,
    sample: bool,
)
    requires
        plan_graph_wf(g),
        forall|i: int| 0 <= i < route.len() ==> is_edge(g, #[trigger] route[i]),
        forall|i: int, j: int|
            0 <= i < j < route.len() ==> (#[trigger] route[i]).node < (#[trigger] route[j]).node,
    ensures
        ({
            let h = reserved(g, route, ready, elapsed_ms, bytes, sample);
            &&& h.len() == g.len()
            &&& forall|v: int| 0 <= v < g.len() ==> (#[trigger] h[v]).len() == g[v].len()
            &&& forall|i: int|
                0 <= i < route.len() ==> {
                    let there = if i == 0 {
                        ready
                    } else {
                        saturated(
                            edge_of(h, route[i - 1]).virtual_free_at + edge_of(
                                g,
                                route[i - 1],
                            ).latency_ms * 65536,
                        )
                    };
                    edge_of(h, #[trigger] route[i]) == (Edge {
                        virtual_free_at: finished_at(edge_of(g, route[i]), there, bytes),
                        last_sampled: if sample {
                            Some(elapsed_ms)
                        } else {
                            edge_of(g, route[i]).last_sampled
                        },
                        ..edge_of(g, route[i])
                    })
                }
            &&& forall|id: EdgeId|
                is_edge(g, id) && !route.contains(id) ==> #[trigger] edge_of(h, id) == edge_of(
                    g,
                    id,
                )
        }),
    decreases route.len(),
{
    if route.len() > 0 {
        let id = route[0];
        assert(is_edge(g, id));
        let edge = edge_of(g, id);
        assert(edge == g[id.node as int][id.edge as int]);
        let finished = finished_at(edge, ready, bytes);
        let taken = Edge {
            virtual_free_at: finished,
            last_sampled: if sample {
                Some(elapsed_ms)
            } else {
                edge.last_sampled
            },
            ..edge
        };
        let next = set_edge(g, id, taken);
        let rest = route.drop_first();
        assert(plan_graph_wf(next)) by {
            assert forall|v: int, k: int| 0 <= v < next.len() && 0 <= k < next[v].len() implies {
                &&& (#[trigger] next[v][k]).channel_id == g[v][k].channel_id
                &&& next[v][k].next == g[v][k].next
                &&& next[v][k].loss == g[v][k].loss
                &&& next[v][k].capacity_kbps == g[v][k].capacity_kbps
                &&& next[v][k].retry_delay_ms == g[v][k].retry_delay_ms
            } by {}
            assert forall|v: int, k: int| 0 <= v < next.len() && 0 <= k < next[v].len() implies {
                &&& v < (#[trigger] next[v][k]).next < next.len()
                &&& next[v][k].loss <= 65535
                &&& next[v][k].capacity_kbps > 0
                &&& 0 < next[v][k].retry_delay_ms <= 200
            } by {
                assert(g[v][k].next == next[v][k].next);
            }
            assert forall|v: int, j: int, k: int|
                0 <= v < next.len() && 0 <= j < k < next[v].len() implies (
            #[trigger] next[v][j]).channel_id != (#[trigger] next[v][k]).channel_id by {
                assert(g[v][j].channel_id != g[v][k].channel_id);
            }
        }
        assert forall|i: int| 0 <= i < rest.len() implies is_edge(next, #[trigger] rest[i]) by {
            assert(is_edge(g, route[i + 1]));
        }
        assert forall|i: int, j: int| 0 <= i < j < rest.len() implies (#[trigger] rest[i]).node < (
        #[trigger] rest[j]).node by {
            assert(route[i + 1].node < route[j + 1].node);
        }
        let later = saturated(finished + edge.latency_ms * 65536);
        lemma_reserved(next, rest, later, elapsed_ms, bytes, sample);
        let h = reserved(g, route, ready, elapsed_ms, bytes, sample);
        assert(h == reserved(next, rest, later, elapsed_ms, bytes, sample));
        assert(!rest.contains(id)) by {
            assert forall|i: int| 0 <= i < rest.len() implies rest[i] != id by {
                assert(route[0].node < route[i + 1].node);
            }
        }
        assert(is_edge(next, id));
        assert(edge_of(next, id) == taken);
        assert(edge_of(h, id) == taken);
        assert forall|i: int| 0 <= i < route.len() implies {
            let there = if i == 0 {
                ready
            } else {
                saturated(
                    edge_of(h, route[i - 1]).virtual_free_at + edge_of(
                        g,
                        route[i - 1],
                    ).latency_ms * 65536,
                )
            };
            edge_of(h, #[trigger] route[i]) == (Edge {
                virtual_free_at: finished_at(edge_of(g, route[i]), there, bytes),
                last_sampled: if sample {
                    Some(elapsed_ms)
                } else {
                    edge_of(g, route[i]).last_sampled
                },
                ..edge_of(g, route[i])
            })
        } by {
            if i > 0 {
                assert(rest[i - 1] == route[i]);
                assert(route[0].node < route[i].node);
                assert(edge_of(next, route[i]) == edge_of(g, route[i]));
                if i > 1 {
                    assert(rest[i - 2] == route[i - 1]);
                    assert(route[0].node < route[i - 1].node);
                    assert(edge_of(next, route[i - 1]) == edge_of(g, route[i - 1]));
                }
            }
        }
        assert forall|other: EdgeId| is_edge(g, other) && !route.contains(other) implies (
        #[trigger] edge_of(h, other)) == edge_of(g, other) by {
            assert(other != id) by {
                assert(route[0] == id);
            }
            assert(!rest.contains(other)) by {
                assert forall|i: int| 0 <= i < rest.len() implies rest[i] != other by {
                    assert(route[i + 1] == rest[i]);
                }
            }
            assert(is_edge(next, other));
            assert(edge_of(next, other) == edge_of(g, other));
        }
    }
}

/// After a plan has been made, each edge of its route is taken until the packet has left it,
/// and no edge is changed in any other way. The route leads from the source to the
/// destination over edges that are past their cooldown, and its channels are the plan.
pub proof fn law_plan_takes_every_edge(
    g: PlanGraph,
    elapsed_ms: u64,
    bytes: usize,
    sample: bool,
) -> (route: Seq<EdgeId>)
    requires
        plan_graph_wf(g),
        planned(g, elapsed_ms, bytes, sample).1 is Some,
    ensures
        ({
            let (h, plan) = planned(g, elapsed_ms, bytes, sample);
            let ends = Seq::new(
                route.len(),
                |i: int| edge_of(h, route[i]).virtual_free_at,
            );
            &&& is_route(g, elapsed_ms, route, g.len() - 1)
            &&& plan->0.len() == route.len()
            &&& forall|i: int|
                0 <= i < route.len() ==> {
                    &&& edge_of(g, #[trigger] route[i]).channel_id == plan->0[i]
                    &&& edge_of(h, route[i]) == (Edge {
                        virtual_free_at: ends[i],
                        last_sampled: if sample {
                            Some(elapsed_ms)
                        } else {
                            edge_of(g, route[i]).last_sampled
                        },
                        ..edge_of(g, route[i])
                    })
                }
            &&& is_journey(g, elapsed_ms, bytes as nat, route, ends)
            &&& forall|id: EdgeId|
                is_edge(g, id) && !route.contains(id) ==> #[trigger] edge_of(h, id) == edge_of(
                    g,
                    id,
                )
            &&& h.len() == g.len()
            &&& forall|v: int| 0 <= v < g.len() ==> (#[trigger] h[v]).len() == g[v].len()
        }),
{
    let route = planned_path(g, elapsed_ms, bytes, sample)->0;
    let forced = if sample {
        sampling_edge(g, elapsed_ms)
    } else {
        None
    };
    law_best_path_is_optimal(g, Search { elapsed_ms, bytes, forced }, Seq::empty());
    lemma_path_is_route(g, elapsed_ms, route, g.len() - 1);
    assert forall|i: int, j: int| 0 <= i < j < route.len() implies (#[trigger] route[i]).node < (
    #[trigger] route[j]).node by {
        lemma_route_climbs(g, route, i, j);
    }
    let ready = saturated(elapsed_ms * 65536);
    lemma_reserved(g, route, ready, elapsed_ms, bytes as nat, sample);
    let (h, plan) = planned(g, elapsed_ms, bytes, sample);
    let ends = Seq::new(route.len(), |i: int| edge_of(h, route[i]).virtual_free_at);
    assert forall|i: int| 0 <= i < route.len() implies ends_at(
        edge_of(g, #[trigger] route[i]),
        bytes as nat,
        starts_at(g, route, elapsed_ms, ends, i),
        ends[i],
    ) by {
        let edge = edge_of(g, route[i]);
        assert(is_edge(g, route[i]));
        assert(edge == g[route[i].node as int][route[i].edge as int]);
        let there = if i == 0 {
            ready
        } else {
            saturated(
                edge_of(h, route[i - 1]).virtual_free_at + edge_of(g, route[i - 1]).latency_ms
                    * 65536,
            )
        };
        lemma_finished(edge, there, bytes as nat);
    }
    route
}

/// No route that is past its cooldowns has its packet at the destination earlier than the
/// route of a plan, and a plan is refused only where every such route takes until the end of
/// virtual time.
pub proof fn law_plan_arrives_first(
    g: PlanGraph,
    elapsed_ms: u64,
    bytes: usize,
    other: Seq<EdgeId>,
    ends: Seq<u64>,
) -> (route: Seq<EdgeId>)
    requires
        plan_graph_wf(g),
        is_route(g, elapsed_ms, other, g.len() - 1),
        is_journey(g, elapsed_ms, bytes as nat, other, ends),
    ensures
        ({
            let (h, plan) = planned(g, elapsed_ms, bytes, false);
            let taken = Seq::new(route.len(), |i: int| edge_of(h, route[i]).virtual_free_at);
            match plan {
                Some(plan) => {
                    &&& is_route(g, elapsed_ms, route, g.len() - 1)
                    &&& is_journey(g, elapsed_ms, bytes as nat, route, taken)
                    &&& plan == Seq::new(
                        route.len(),
                        |i: int| edge_of(g, route[i]).channel_id,
                    )
                    &&& arrival_of(g, elapsed_ms, route, taken) <= arrival_of(
                        g,
                        elapsed_ms,
                        other,
                        ends,
                    )
                },
                None => {
                    &&& h == g
                    &&& arrival_of(g, elapsed_ms, other, ends) == 0xffff_ffff_ffff_ffff
                },
            }
        }),
{
    let q = Search { elapsed_ms, bytes, forced: None };
    lemma_route_is_path(g, elapsed_ms, other, g.len() - 1);
    law_best_path_is_optimal(g, q, other);
    lemma_journey_arrival(g, q, other, ends);
    let (h, plan) = planned(g, elapsed_ms, bytes, false);
    let route = planned_path(g, elapsed_ms, bytes, false)->0;
    if plan is Some {
        let same = law_plan_takes_every_edge(g, elapsed_ms, bytes, false);
        lemma_path_is_route(g, elapsed_ms, route, g.len() - 1);
        lemma_same_route(g, elapsed_ms, same, route, plan->0);
        let taken = Seq::new(route.len(), |i: int| edge_of(h, route[i]).virtual_free_at);
        lemma_journey_arrival(g, q, route, taken);
        assert(plan->0 =~= Seq::new(route.len(), |i: int| edge_of(g, route[i]).channel_id));
    }
    route
}

/// Two routes over the same channels are one.
proof fn lemma_same_route(
    g: PlanGraph,
    elapsed_ms: u64,
    a: Seq<EdgeId>,
    b: Seq<EdgeId>,
    plan: Seq<u16>,
)
    requires
        plan_graph_wf(g),
        is_route(g, elapsed_ms, a, g.len() - 1),
        is_route(g, elapsed_ms, b, g.len() - 1),
        a.len() == b.len() == plan.len(),
        forall|i: int|
            0 <= i < a.len() ==> edge_of(g, #[trigger] a[i]).channel_id == plan[i],
        forall|i: int|
            0 <= i < b.len() ==> edge_of(g, #[trigger] b[i]).channel_id == plan[i],
    ensures
        a == b,
{
    assert forall|i: int| 0 <= i < a.len() implies a[i] == b[i] by {
        lemma_same_edge(g, elapsed_ms, a, b, plan, i);
    }
    assert(a =~= b);
}

proof fn lemma_same_edge(
    g: PlanGraph,
    elapsed_ms: u64,
    a: Seq<EdgeId>,
    b: Seq<EdgeId>,
    plan: Seq<u16>,
    i: int,
)
    requires
        plan_graph_wf(g),
        is_route(g, elapsed_ms, a, g.len() - 1),
        is_route(g, elapsed_ms, b, g.len() - 1),
        a.len() == b.len() == plan.len(),
        forall|i: int|
            0 <= i < a.len() ==> edge_of(g, #[trigger] a[i]).channel_id == plan[i],
        forall|i: int|
            0 <= i < b.len() ==> edge_of(g, #[trigger] b[i]).channel_id == plan[i],
        0 <= i < a.len(),
    ensures
        a[i] == b[i],
    decreases i,
{
    if i > 0 {
        lemma_same_edge(g, elapsed_ms, a, b, plan, i - 1);
        assert(linked(g, a, i));
        assert(linked(g, b, i));
    }
    let v = a[i].node as int;
    let j = a[i].edge as int;
    let k = b[i].edge as int;
    assert(is_edge(g, a[i]) && is_edge(g, b[i]));
    assert(edge_of(g, a[i]) == g[v][j]);
    assert(edge_of(g, b[i]) == g[v][k]);
    if j < k {
        assert(g[v][j].channel_id != g[v][k].channel_id);
    } else if k < j {
        assert(g[v][k].channel_id != g[v][j].channel_id);
    }
}

// ---------------------------------------------------------------------------
// Samples
// ---------------------------------------------------------------------------

/// A sample at `a` is as old as one at `b` or older; an edge without a sample comes first.
pub open spec fn no_newer(a: Option<u64>, b: Option<u64>) -> bool {
    a is None || (b is Some && a->0 <= b->0)
}

proof fn lemma_scan_reaches_edge(
    g: PlanGraph,
    elapsed_ms: u64,
    n: nat,
    id: EdgeId,
)
    requires
        plan_graph_wf(g),
        id.node < n < g.len(),
        is_edge(g, id),
        allowed(edge_of(g, id), elapsed_ms),
        scan_nodes(g, elapsed_ms, id.node as nat).reachable[id.node as int],
    ensures
        scan_nodes(g, elapsed_ms, n).reachable.len() == g.len(),
        scan_nodes(g, elapsed_ms, n).reachable[edge_of(g, id).next as int],
    decreases n,
{
    let before = scan_nodes(g, elapsed_ms, (n - 1) as nat);
    lemma_scan_len(g, elapsed_ms, (n - 1) as nat);
    lemma_scan_len(g, elapsed_ms, n);
    if id.node < n - 1 {
        lemma_scan_reaches_edge(g, elapsed_ms, (n - 1) as nat, id);
        if before.reachable[n - 1] {
            lemma_scan_keeps(g, elapsed_ms, before, n - 1, g[n - 1].len());
        }
    } else {
        lemma_scan_takes(g, elapsed_ms, before, n - 1, g[n - 1].len(), id.edge as int);
        assert(edge_of(g, id) == g[n - 1][id.edge as int]);
    }
}

proof fn lemma_scan_len(g: PlanGraph, elapsed_ms: u64, n: nat)
    requires
        plan_graph_wf(g),
        n < g.len(),
    ensures
        scan_nodes(g, elapsed_ms, n).reachable.len() == g.len(),
    decreases n,
{
    if n > 0 {
        lemma_scan_len(g, elapsed_ms, (n - 1) as nat);
        let before = scan_nodes(g, elapsed_ms, (n - 1) as nat);
        lemma_scan_keeps(g, elapsed_ms, before, n - 1, g[n - 1].len());
    }
}

proof fn lemma_scan_keeps(
    g: PlanGraph,
    elapsed_ms: u64,
    s: crate::routing::SampleScan,
    v: int,
    k: nat,
)
    requires
        plan_graph_wf(g),
        0 <= v < g.len(),
        k <= g[v].len(),
        s.reachable.len() == g.len(),
    ensures
        ({
            let r = scan_edges(g, elapsed_ms, s, v, k).reachable;
            &&& r.len() == g.len()
            &&& forall|w: int| 0 <= w < g.len() && s.reachable[w] ==> #[trigger] r[w]
        }),
    decreases k,
{
    if k > 0 {
        lemma_scan_keeps(g, elapsed_ms, s, v, (k - 1) as nat);
        assert(g[v][k - 1].next < g.len());
    }
}

proof fn lemma_scan_takes(
    g: PlanGraph,
    elapsed_ms: u64,
    s: crate::routing::SampleScan,
    v: int,
    k: nat,
    j: int,
)
    requires
        plan_graph_wf(g),
        0 <= v < g.len(),
        0 <= j < k <= g[v].len(),
        s.reachable.len() == g.len(),
        allowed(g[v][j], elapsed_ms),
    ensures
        scan_edges(g, elapsed_ms, s, v, k).reachable[g[v][j].next as int],
    decreases k,
{
    let before = scan_edges(g, elapsed_ms, s, v, (k - 1) as nat);
    lemma_scan_keeps(g, elapsed_ms, s, v, (k - 1) as nat);
    assert(g[v][k - 1].next < g.len());
    assert(g[v][j].next < g.len());
    if j < k - 1 {
        lemma_scan_takes(g, elapsed_ms, s, v, (k - 1) as nat, j);
    }
}

/// A node that a route leads to is reached when its turn comes.
proof fn lemma_scan_reaches(g: PlanGraph, elapsed_ms: u64, route: Seq<EdgeId>, v: int)
    requires
        plan_graph_wf(g),
        is_path(g, elapsed_ms, route, v),
        0 <= v < g.len(),
    ensures
        scan_nodes(g, elapsed_ms, v as nat).reachable[v],
    decreases route.len(),
{
    if route.len() > 0 {
        let id = route.last();
        assert(edge_of(g, id) == g[id.node as int][id.edge as int]);
        lemma_scan_reaches(g, elapsed_ms, route.drop_last(), id.node as int);
        lemma_scan_reaches_edge(g, elapsed_ms, v as nat, id);
    }
}

proof fn lemma_scan_stays(g: PlanGraph, elapsed_ms: u64, v: int, n: nat)
    requires
        plan_graph_wf(g),
        0 <= v <= n < g.len(),
        scan_nodes(g, elapsed_ms, v as nat).reachable[v],
    ensures
        scan_nodes(g, elapsed_ms, n).reachable[v],
    decreases n,
{
    if v < n {
        lemma_scan_stays(g, elapsed_ms, v, (n - 1) as nat);
        lemma_scan_len(g, elapsed_ms, (n - 1) as nat);
        let before = scan_nodes(g, elapsed_ms, (n - 1) as nat);
        lemma_scan_keeps(g, elapsed_ms, before, n - 1, g[n - 1].len());
    }
}

/// The route of a sample goes through an edge whose last sample is no newer than that of any
/// edge that a packet could reach and take, and after it every edge of the route has been
/// sampled now.
pub proof fn law_sample_visits_the_oldest(
    g: PlanGraph,
    elapsed_ms: u64,
    bytes: usize,
    way: Seq<EdgeId>,
    id: EdgeId,
) -> (route: Seq<EdgeId>)
    requires
        plan_graph_wf(g),
        planned(g, elapsed_ms, bytes, true).1 is Some,
        is_edge(g, id),
        is_route(g, elapsed_ms, way, id.node as int),
        edge_of(g, id).cooldown_until <= elapsed_ms,
    ensures
        is_route(g, elapsed_ms, route, g.len() - 1),
        planned(g, elapsed_ms, bytes, true).1->0 == Seq::new(
            route.len(),
            |i: int| edge_of(g, route[i]).channel_id,
        ),
        exists|i: int|
            0 <= i < route.len() && no_newer(
                edge_of(g, #[trigger] route[i]).last_sampled,
                edge_of(g, id).last_sampled,
            ),
        forall|i: int|
            0 <= i < route.len() ==> edge_of(
                planned(g, elapsed_ms, bytes, true).0,
                #[trigger] route[i],
            ).last_sampled == Some(elapsed_ms),
{
    let route = law_plan_takes_every_edge(g, elapsed_ms, bytes, true);
    let plan = planned(g, elapsed_ms, bytes, true).1->0;
    let v = id.node as int;
    assert(edge_of(g, id) == g[v][id.edge as int]);
    lemma_route_is_path(g, elapsed_ms, way, v);
    lemma_scan_reaches(g, elapsed_ms, way, v);
    lemma_scan_stays(g, elapsed_ms, v, (g.len() - 1) as nat);
    crate::routing::law_sampling_takes_the_oldest(g, elapsed_ms, id);
    let forced = sampling_edge(g, elapsed_ms);
    let path = planned_path(g, elapsed_ms, bytes, true)->0;
    let q = Search { elapsed_ms, bytes, forced };
    law_best_path_is_optimal(g, q, Seq::empty());
    lemma_path_is_route(g, elapsed_ms, path, g.len() - 1);
    lemma_same_route(g, elapsed_ms, route, path, plan);
    assert(goes_through(q, path));
    let i = choose|i: int| 0 <= i < path.len() && path[i] == forced->0;
    assert(no_newer(edge_of(g, route[i]).last_sampled, edge_of(g, id).last_sampled));
    assert(plan =~= Seq::new(route.len(), |i: int| edge_of(g, route[i]).channel_id));
    route
}

// ---------------------------------------------------------------------------
// Scores
// ---------------------------------------------------------------------------

/// The edges that a plan names, one after the other from the source.
pub open spec fn follows(g: PlanGraph, plan: Seq<u16>, route: Seq<EdgeId>) -> bool {
    &&& route.len() == plan.len()
    &&& route.len() > 0 ==> route[0].node == 0
    &&& forall|i: int|
        0 <= i < route.len() ==> is_edge(g, #[trigger] route[i]) && edge_of(
            g,
            route[i],
        ).channel_id == plan[i]
    &&& forall|i: int| 0 < i < route.len() ==> #[trigger] linked(g, route, i)
}

/// What is known of an edge is no newer than `at`.
pub open spec fn is_news(edge: Edge, at: u64) -> bool {
    edge.last_observation_at is None || edge.last_observation_at->0 <= at
}

/// The edge with the score that an answer, or the want of one, to a sample of `at` gives.
pub open spec fn scored(edge: Edge, at: u64, success: bool, next: Edge) -> bool {
    if is_news(edge, at) {
        &&& next == (Edge {
            loss: next.loss,
            last_observation_at: Some(at),
            cooldown_until: next.cooldown_until,
            retry_delay_ms: next.retry_delay_ms,
            ..edge
        })
        &&& if success {
            4 * next.loss <= 3 * edge.loss < 4 * next.loss + 4
        } else {
            16 * (next.loss - edge.loss) <= 65535 - edge.loss < 16 * (next.loss - edge.loss) + 16
        }
    } else {
        next == edge
    }
}

proof fn lemma_observed(
    g: PlanGraph,
    v: int,
    plan: Seq<u16>,
    route: Seq<EdgeId>,
    at: u64,
    success: bool,
)
    requires
        plan_graph_wf(g),
        route.len() == plan.len(),
        route.len() > 0 ==> route[0].node == v,
        forall|i: int|
            0 <= i < route.len() ==> is_edge(g, #[trigger] route[i]) && edge_of(
                g,
                route[i],
            ).channel_id == plan[i],
        forall|i: int| 0 < i < route.len() ==> #[trigger] linked(g, route, i),
    ensures
        ({
            let h = observed(g, v, plan, at, success);
            &&& plan_graph_wf(h)
            &&& same_topology(g, h)
            &&& h.len() == g.len()
            &&& forall|u: int| 0 <= u < g.len() ==> (#[trigger] h[u]).len() == g[u].len()
            &&& forall|i: int|
                0 <= i < route.len() ==> edge_of(h, #[trigger] route[i]) == observed_edge(
                    edge_of(g, route[i]),
                    at,
                    success,
                )
            &&& forall|id: EdgeId|
                is_edge(g, id) && !route.contains(id) ==> #[trigger] edge_of(h, id) == edge_of(
                    g,
                    id,
                )
        }),
    decreases plan.len(),
{
    if plan.len() > 0 {
        let id = route[0];
        assert(is_edge(g, id));
        let edge = edge_of(g, id);
        assert(edge == g[v][id.edge as int]);
        lemma_position_unique(g[v], id.edge as int);
        let marked = observed_edge(edge, at, success);
        let next = set_edge(g, id, marked);
        crate::routing::lemma_set_edge(g, id, marked);
        let rest = route.drop_first();
        let left = plan.drop_first();
        assert forall|i: int| 0 <= i < rest.len() implies is_edge(next, #[trigger] rest[i])
            && edge_of(next, rest[i]).channel_id == left[i] by {
            assert(route[i + 1] == rest[i]);
            lemma_route_climbs(g, route, 0, i + 1);
        }
        assert forall|i: int| 0 < i < rest.len() implies #[trigger] linked(next, rest, i) by {
            assert(linked(g, route, i + 1));
            lemma_route_climbs(g, route, 0, i);
        }
        if rest.len() > 0 {
            assert(linked(g, route, 1));
        }
        lemma_observed(next, edge.next as int, left, rest, at, success);
        crate::routing::lemma_same_topology_trans(
            g,
            next,
            observed(next, edge.next as int, left, at, success),
        );
        let h = observed(g, v, plan, at, success);
        assert(id == EdgeId { node: v as usize, edge: position(g[v], plan[0]) as usize });
        assert(h == observed(next, edge.next as int, left, at, success));
        assert(!rest.contains(id)) by {
            assert forall|i: int| 0 <= i < rest.len() implies rest[i] != id by {
                lemma_route_climbs(g, route, 0, i + 1);
            }
        }
        assert(is_edge(next, id));
        assert(edge_of(next, id) == marked);
        assert(edge_of(h, id) == marked);
        assert forall|i: int| 0 <= i < route.len() implies edge_of(h, #[trigger] route[i])
            == observed_edge(edge_of(g, route[i]), at, success) by {
            if i > 0 {
                assert(rest[i - 1] == route[i]);
                lemma_route_climbs(g, route, 0, i);
                assert(edge_of(next, route[i]) == edge_of(g, route[i]));
            }
        }
        assert forall|other: EdgeId| is_edge(g, other) && !route.contains(other) implies (
        #[trigger] edge_of(h, other)) == edge_of(g, other) by {
            assert(other != id) by {
                assert(route[0] == id);
            }
            assert(!rest.contains(other)) by {
                assert forall|i: int| 0 <= i < rest.len() implies rest[i] != other by {
                    assert(route[i + 1] == rest[i]);
                }
            }
            assert(is_edge(next, other));
            assert(edge_of(next, other) == edge_of(g, other));
        }
    }
}

/// An answer takes a quarter off the loss of each edge of the plan that it is news of, and
/// ends the cooldown of the first one. The want of an answer adds a sixteenth of what is
/// missing to one, and leaves the cooldowns. No other edge is touched.
pub proof fn law_feedback_scores_the_plan(
    g: PlanGraph,
    plan: Seq<u16>,
    route: Seq<EdgeId>,
    at: u64,
    success: bool,
)
    requires
        plan_graph_wf(g),
        follows(g, plan, route),
    ensures
        ({
            let h = feedback(g, plan, at, success);
            &&& plan_graph_wf(h)
            &&& same_topology(g, h)
            &&& h.len() == g.len()
            &&& forall|u: int| 0 <= u < g.len() ==> (#[trigger] h[u]).len() == g[u].len()
            &&& forall|i: int|
                0 <= i < route.len() ==> {
                    let edge = edge_of(g, #[trigger] route[i]);
                    let next = edge_of(h, route[i]);
                    &&& scored(edge, at, success, next)
                    &&& if i == 0 && success && is_news(edge, at) {
                        next.cooldown_until == 0 && next.retry_delay_ms == 50
                    } else {
                        next.cooldown_until == edge.cooldown_until && next.retry_delay_ms
                            == edge.retry_delay_ms
                    }
                }
            &&& forall|id: EdgeId|
                is_edge(g, id) && !route.contains(id) ==> #[trigger] edge_of(h, id) == edge_of(
                    g,
                    id,
                )
        }),
{
    lemma_observed(g, 0, plan, route, at, success);
    let scored_graph = observed(g, 0, plan, at, success);
    let h = feedback(g, plan, at, success);
    if route.len() > 0 {
        let id = route[0];
        assert(is_edge(g, id));
        assert(edge_of(g, id) == g[0][id.edge as int]);
        lemma_position_unique(g[0], id.edge as int);
        assert(id == EdgeId { node: 0, edge: position(g[0], plan[0]) as usize });
        if success && is_news(edge_of(g, id), at) {
            let rested = Edge {
                cooldown_until: 0,
                retry_delay_ms: 50,
                ..edge_of(scored_graph, id)
            };
            assert(is_edge(scored_graph, id));
            assert(edge_of(scored_graph, id) == scored_graph[0][id.edge as int]);
            crate::routing::lemma_set_edge(scored_graph, id, rested);
            crate::routing::lemma_same_topology_trans(g, scored_graph, h);
        }
        assert forall|i: int| 0 <= i < route.len() implies {
            let edge = edge_of(g, #[trigger] route[i]);
            let next = edge_of(h, route[i]);
            &&& scored(edge, at, success, next)
            &&& if i == 0 && success && is_news(edge, at) {
                next.cooldown_until == 0 && next.retry_delay_ms == 50
            } else {
                next.cooldown_until == edge.cooldown_until && next.retry_delay_ms
                    == edge.retry_delay_ms
            }
        } by {
            assert(is_edge(g, route[i]));
            assert(edge_of(g, route[i]) == g[route[i].node as int][route[i].edge as int]);
            if i > 0 {
                lemma_route_climbs(g, route, 0, i);
                assert(edge_of(h, route[i]) == edge_of(scored_graph, route[i]));
            }
        }
        assert forall|other: EdgeId| is_edge(g, other) && !route.contains(other) implies (
        #[trigger] edge_of(h, other)) == edge_of(g, other) by {
            assert(other != id) by {
                assert(route[0] == id);
            }
            assert(edge_of(scored_graph, other) == edge_of(g, other));
        }
    }
}

/// The route of a plan is what its channels name.
pub proof fn lemma_plan_follows(g: PlanGraph, elapsed_ms: u64, plan: Seq<u16>, route: Seq<EdgeId>)
    requires
        is_route(g, elapsed_ms, route, g.len() - 1),
        plan == Seq::new(route.len(), |i: int| edge_of(g, route[i]).channel_id),
    ensures
        follows(g, plan, route),
{
}

/// A refusal of a channel rests its edge for the retry delay, doubles that delay up to 200
/// ms, and takes its loss half of the way to one where it is news. No other edge is touched.
pub proof fn law_refusal_rests_the_channel(
    g: PlanGraph,
    channel_id: u16,
    elapsed_ms: u64,
    first: EdgeId,
)
    requires
        plan_graph_wf(g),
        is_edge(g, first),
        first.node == 0,
        edge_of(g, first).channel_id == channel_id,
    ensures
        ({
            let h = send_failed(g, channel_id, elapsed_ms);
            let edge = edge_of(g, first);
            let next = edge_of(h, first);
            &&& next.cooldown_until == capped(elapsed_ms + edge.retry_delay_ms)
            &&& next.retry_delay_ms == if edge.retry_delay_ms <= 100 {
                2 * edge.retry_delay_ms
            } else {
                200
            }
            &&& next == (Edge {
                loss: next.loss,
                last_observation_at: next.last_observation_at,
                cooldown_until: next.cooldown_until,
                retry_delay_ms: next.retry_delay_ms,
                ..edge
            })
            &&& if is_news(edge, elapsed_ms) {
                &&& next.last_observation_at == Some(elapsed_ms)
                &&& 2 * (next.loss - edge.loss) <= 65535 - edge.loss < 2 * (next.loss - edge.loss)
                    + 2
            } else {
                next.loss == edge.loss && next.last_observation_at == edge.last_observation_at
            }
            &&& h.len() == g.len()
            &&& forall|id: EdgeId|
                is_edge(g, id) && id != first ==> #[trigger] edge_of(h, id) == edge_of(g, id)
        }),
{
    assert(edge_of(g, first) == g[0][first.edge as int]);
    lemma_position_unique(g[0], first.edge as int);
    assert(first == EdgeId { node: 0, edge: position(g[0], channel_id) as usize });
}

/// A new graph has the edges that were configured, none of them taken, resting, scored or
/// sampled. A hint of zero stands for 50 Mbit/s and for 50 ms.
pub proof fn law_new_edges_are_free(g: Seq<Seq<RouteEdge>>, v: int, k: int)
    requires
        0 <= v < g.len(),
        0 <= k < g[v].len(),
    ensures
        ({
            let edge = new_graph(g)[v][k];
            let hint = g[v][k];
            &&& edge.channel_id == hint.channel_id
            &&& edge.next == hint.next
            &&& edge.capacity_kbps == if hint.capacity_hint_kbps > 0 {
                hint.capacity_hint_kbps
            } else {
                50_000
            }
            &&& edge.latency_ms == if hint.latency_hint_ms > 0 {
                hint.latency_hint_ms
            } else {
                50
            }
            &&& edge.virtual_free_at == 0
            &&& edge.loss == 0
            &&& edge.cooldown_until == 0
            &&& edge.retry_delay_ms == 50
            &&& edge.last_sampled is None
            &&& edge.last_observation_at is None
        }),
        new_graph(g).len() == g.len(),
        new_graph(g)[v].len() == g[v].len(),
{
}

/// Planning changes neither the scores nor the cooldowns of any edge, nor what the edges are.
pub proof fn law_plan_keeps_the_scores(
    g: PlanGraph,
    elapsed_ms: u64,
    bytes: usize,
    sample: bool,
    id: EdgeId,
)
    requires
        plan_graph_wf(g),
        is_edge(g, id),
    ensures
        ({
            let h = planned(g, elapsed_ms, bytes, sample).0;
            let next = edge_of(h, id);
            &&& is_edge(h, id)
            &&& next == (Edge {
                virtual_free_at: next.virtual_free_at,
                last_sampled: next.last_sampled,
                ..edge_of(g, id)
            })
        }),
{
    if planned(g, elapsed_ms, bytes, sample).1 is Some {
        let route = law_plan_takes_every_edge(g, elapsed_ms, bytes, sample);
        if route.contains(id) {
            let i = choose|i: int| 0 <= i < route.len() && route[i] == id;
            assert(edge_of(g, route[i]).channel_id == edge_of(g, id).channel_id);
        }
    }
}

/// The edges that the channels of a plan name, from node `v` on.
pub proof fn lemma_walk_route(g: PlanGraph, v: int, plan: Seq<u16>) -> (route: Seq<EdgeId>)
    requires
        plan_graph_wf(g),
        0 <= v < g.len(),
        walkable(g, v, plan),
    ensures
        route.len() == plan.len(),
        route.len() > 0 ==> route[0].node == v,
        forall|i: int|
            0 <= i < route.len() ==> is_edge(g, #[trigger] route[i]) && edge_of(
                g,
                route[i],
            ).channel_id == plan[i],
        forall|i: int| 0 < i < route.len() ==> #[trigger] linked(g, route, i),
    decreases plan.len(),
{
    if plan.len() == 0 {
        Seq::empty()
    } else {
        let k = position(g[v], plan[0]);
        crate::routing::lemma_position(g[v], plan[0]);
        let id = EdgeId { node: v as usize, edge: k as usize };
        assert(edge_of(g, id) == g[v][k]);
        assert(v < g[v][k].next < g.len());
        let left = plan.drop_first();
        let rest = lemma_walk_route(g, g[v][k].next as int, left);
        let route = seq![id] + rest;
        assert forall|i: int| 0 <= i < route.len() implies is_edge(g, #[trigger] route[i])
            && edge_of(g, route[i]).channel_id == plan[i] by {
            if i > 0 {
                assert(route[i] == rest[i - 1]);
                assert(plan[i] == left[i - 1]);
            }
        }
        assert forall|i: int| 0 < i < route.len() implies #[trigger] linked(g, route, i) by {
            if i > 1 {
                assert(linked(g, rest, i - 1));
                assert(route[i] == rest[i - 1] && route[i - 1] == rest[i - 2]);
            } else {
                assert(route[1] == rest[0]);
            }
        }
        route
    }
}

/// A plan names one row of edges.
pub proof fn lemma_same_way(g: PlanGraph, plan: Seq<u16>, a: Seq<EdgeId>, b: Seq<EdgeId>)
    requires
        plan_graph_wf(g),
        follows(g, plan, a),
        follows(g, plan, b),
    ensures
        a == b,
{
    assert forall|i: int| 0 <= i < a.len() implies a[i] == b[i] by {
        lemma_same_step(g, plan, a, b, i);
    }
    assert(a =~= b);
}

proof fn lemma_same_step(
    g: PlanGraph,
    plan: Seq<u16>,
    a: Seq<EdgeId>,
    b: Seq<EdgeId>,
    i: int,
)
    requires
        plan_graph_wf(g),
        follows(g, plan, a),
        follows(g, plan, b),
        0 <= i < a.len(),
    ensures
        a[i] == b[i],
    decreases i,
{
    if i > 0 {
        lemma_same_step(g, plan, a, b, i - 1);
        assert(linked(g, a, i));
        assert(linked(g, b, i));
    }
    let v = a[i].node as int;
    let j = a[i].edge as int;
    let k = b[i].edge as int;
    assert(is_edge(g, a[i]) && is_edge(g, b[i]));
    assert(edge_of(g, a[i]) == g[v][j]);
    assert(edge_of(g, b[i]) == g[v][k]);
    if j < k {
        assert(g[v][j].channel_id != g[v][k].channel_id);
    } else if k < j {
        assert(g[v][k].channel_id != g[v][j].channel_id);
    }
}

} // verus!
