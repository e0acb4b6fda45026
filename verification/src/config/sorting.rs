//! Topological sorting of a route graph.
use std::collections::VecDeque;

use vstd::prelude::*;

use crate::routing::{RouteEdge, RouteGraph};

verus! {

/// The edges of each node.
pub type Links = Seq<Seq<RouteEdge>>;

/// All edges lead to nodes of the graph.
pub open spec fn closed_graph(g: Links) -> bool {
    forall|u: int, k: int| 0 <= u < g.len() && 0 <= k < g[u].len() ==> (#[trigger] g[u][k]).next < g.len()
}

/// How many of the edges lead to `v`.
pub open spec fn hits(edges: Seq<RouteEdge>, v: int) -> nat
    decreases edges.len(),
{
    if edges.len() == 0 {
        0
    } else {
        hits(edges.drop_last(), v) + if edges.last().next == v {
            1nat
        } else {
            0nat
        }
    }
}

/// How many edges lead to `v` from the first `n` nodes, those in `done` left out.
pub open spec fn open_into(g: Links, done: Seq<int>, v: int, n: nat) -> nat
    decreases n,
{
    if n == 0 {
        0
    } else {
        open_into(g, done, v, (n - 1) as nat) + if done.contains(n - 1) {
            0
        } else {
            hits(g[n - 1], v)
        }
    }
}

/// How many edges lead to `v`.
pub open spec fn indegree(g: Links, v: int) -> nat {
    open_into(g, Seq::empty(), v, g.len())
}

/// A sort under way: the nodes that are sorted, those that can follow, and how many edges
/// from other nodes lead to each node.
#[verifier::ext_equal]
pub struct Sorting {
    pub order: Seq<int>,
    pub ready: Seq<int>,
    pub open: Seq<int>,
}

/// One edge less leads to the end of `edge`, which can follow once there is none.
pub open spec fn released(s: Sorting, edge: RouteEdge) -> Sorting {
    let v = edge.next as int;
    let left = s.open[v] - 1;
    Sorting {
        open: s.open.update(v, left),
        ready: if left == 0 {
            s.ready.push(v)
        } else {
            s.ready
        },
        ..s
    }
}

/// The edges of a sorted node do not count any more.
pub open spec fn released_all(s: Sorting, edges: Seq<RouteEdge>) -> Sorting
    decreases edges.len(),
{
    if edges.len() == 0 {
        s
    } else {
        released(released_all(s, edges.drop_last()), edges.last())
    }
}

/// The first node that can follow does.
pub open spec fn sorted_one(g: Links, s: Sorting) -> Sorting {
    let v = s.ready[0];
    released_all(
        Sorting { order: s.order.push(v), ready: s.ready.drop_first(), ..s },
        g[v],
    )
}

/// Up to `n` nodes more are sorted.
pub open spec fn sorted_more(g: Links, s: Sorting, n: nat) -> Sorting
    decreases n,
{
    if n == 0 || s.ready.len() == 0 {
        s
    } else {
        sorted_more(g, sorted_one(g, s), (n - 1) as nat)
    }
}

/// The nodes below `n` that no edge leads to.
pub open spec fn sources(g: Links, n: nat) -> Seq<int>
    decreases n,
{
    if n == 0 {
        Seq::empty()
    } else if indegree(g, n - 1) == 0 {
        sources(g, (n - 1) as nat).push(n - 1)
    } else {
        sources(g, (n - 1) as nat)
    }
}

/// The start of a sort: the sources come first, in the order of their numbers.
pub open spec fn unsorted(g: Links) -> Sorting {
    Sorting {
        order: Seq::empty(),
        ready: sources(g, g.len()),
        open: Seq::new(g.len(), |v: int| indegree(g, v) as int),
    }
}

/// The nodes in topological order: a node follows as soon as all edges into it come from
/// nodes before it, first come, first served. On a graph with a cycle some nodes are left
/// out.
pub open spec fn topological_order(g: Links) -> Seq<int> {
    sorted_more(g, unsorted(g), g.len()).order
}

/// Every edge leads from a smaller to a greater rank.
pub open spec fn ranked(g: Links, rank: Seq<int>) -> bool {
    &&& rank.len() == g.len()
    &&& forall|u: int, k: int|
        0 <= u < g.len() && 0 <= k < g[u].len() ==> rank[u] < rank[(#[trigger] g[u][k]).next as int]
}

/// There is no cycle.
pub open spec fn acyclic(g: Links) -> bool {
    exists|rank: Seq<int>| ranked(g, rank)
}

// ---------------------------------------------------------------------------
// Counting
// ---------------------------------------------------------------------------

proof fn lemma_hits_positive(edges: Seq<RouteEdge>, k: int)
    requires
        0 <= k < edges.len(),
    ensures
        hits(edges, edges[k].next as int) > 0,
    decreases edges.len(),
{
    if k < edges.len() - 1 {
        assert(edges.drop_last()[k] == edges[k]);
        lemma_hits_positive(edges.drop_last(), k);
    }
}

proof fn lemma_hits_witness(edges: Seq<RouteEdge>, v: int) -> (k: int)
    requires
        hits(edges, v) > 0,
    ensures
        0 <= k < edges.len(),
        edges[k].next == v,
    decreases edges.len(),
{
    if edges.last().next == v {
        edges.len() - 1
    } else {
        let k = lemma_hits_witness(edges.drop_last(), v);
        assert(edges.drop_last()[k] == edges[k]);
        k
    }
}

proof fn lemma_open_push(g: Links, done: Seq<int>, x: int, v: int, n: nat)
    requires
        !done.contains(x),
        0 <= x,
    ensures
        open_into(g, done, v, n) == open_into(g, done.push(x), v, n) + if x < n {
            hits(g[x], v)
        } else {
            0
        },
    decreases n,
{
    if n > 0 {
        lemma_open_push(g, done, x, v, (n - 1) as nat);
        assert(done.push(x)[done.len() as int] == x);
        assert(done.push(x).contains(n - 1) == (done.contains(n - 1) || n - 1 == x)) by {
            if done.contains(n - 1) {
                let i = choose|i: int| 0 <= i < done.len() && done[i] == n - 1;
                assert(done.push(x)[i] == n - 1);
            }
            if done.push(x).contains(n - 1) && n - 1 != x {
                let i = choose|i: int| 0 <= i < done.push(x).len() && done.push(x)[i] == n - 1;
                assert(done[i] == n - 1);
            }
        }
    }
}

proof fn lemma_open_zero(g: Links, done: Seq<int>, v: int, n: nat, u: int)
    requires
        open_into(g, done, v, n) == 0,
        0 <= u < n,
        !done.contains(u),
    ensures
        hits(g[u], v) == 0,
    decreases n,
{
    if u < n - 1 {
        lemma_open_zero(g, done, v, (n - 1) as nat, u);
    }
}

proof fn lemma_open_positive(g: Links, done: Seq<int>, v: int, n: nat) -> (u: int)
    requires
        open_into(g, done, v, n) > 0,
    ensures
        0 <= u < n,
        !done.contains(u),
        hits(g[u], v) > 0,
    decreases n,
{
    if !done.contains(n - 1) && hits(g[n - 1], v) > 0 {
        n - 1
    } else {
        lemma_open_positive(g, done, v, (n - 1) as nat)
    }
}

/// The nodes of `order` are different nodes of the graph.
pub open spec fn distinct_nodes(order: Seq<int>, n: int) -> bool {
    &&& forall|i: int| 0 <= i < order.len() ==> 0 <= #[trigger] order[i] < n
    &&& forall|i: int, j: int| 0 <= i < j < order.len() ==> order[i] != order[j]
}

/// There are no more different nodes than there are nodes.
proof fn lemma_distinct_bound(order: Seq<int>, n: int)
    requires
        distinct_nodes(order, n),
        0 <= n,
    ensures
        order.len() <= n,
    decreases n,
{
    if n == 0 {
        if order.len() > 0 {
            assert(0 <= order[0] < n);
        }
    } else if order.contains(n - 1) {
        let i = choose|i: int| 0 <= i < order.len() && order[i] == n - 1;
        let rest = order.remove(i);
        assert forall|j: int| 0 <= j < rest.len() implies 0 <= #[trigger] rest[j] < n - 1 by {
            if j < i {
                assert(rest[j] == order[j]);
            } else {
                assert(rest[j] == order[j + 1]);
            }
        }
        assert forall|a: int, b: int| 0 <= a < b < rest.len() implies rest[a] != rest[b] by {
            let x = if a < i {
                a
            } else {
                a + 1
            };
            let y = if b < i {
                b
            } else {
                b + 1
            };
            assert(rest[a] == order[x] && rest[b] == order[y]);
        }
        lemma_distinct_bound(rest, n - 1);
    } else {
        assert forall|j: int| 0 <= j < order.len() implies 0 <= #[trigger] order[j] < n - 1 by {
            assert(order[j] != n - 1);
        }
        lemma_distinct_bound(order, n - 1);
    }
}

/// As many different nodes as there are nodes are all of them.
pub proof fn lemma_distinct_full(order: Seq<int>, n: int, v: int)
    requires
        distinct_nodes(order, n),
        order.len() == n,
        0 <= v < n,
    ensures
        order.contains(v),
{
    if !order.contains(v) {
        let more = order.push(v);
        assert forall|i: int, j: int| 0 <= i < j < more.len() implies more[i] != more[j] by {
            if j == order.len() {
                assert(order.contains(order[i]));
            }
        }
        lemma_distinct_bound(more, n);
    }
}

// ---------------------------------------------------------------------------
// What a sort keeps
// ---------------------------------------------------------------------------

/// What holds while a node's first `k` edges have been released: the counts are those of the
/// edges from nodes that are not sorted, and of the node's other edges.
pub open spec fn sorting_holds(g: Links, s: Sorting, rest: Seq<RouteEdge>) -> bool {
    let n = g.len() as int;
    &&& s.open.len() == n
    &&& distinct_nodes(s.order + s.ready, n)
    &&& forall|v: int|
        0 <= v < n ==> #[trigger] s.open[v] == open_into(g, s.order, v, n as nat) + hits(rest, v)
    &&& forall|v: int| 0 <= v < n ==> (#[trigger] s.open[v] == 0 <==> (s.order + s.ready).contains(v))
    &&& forall|i: int, u: int|
        #![trigger s.order[i], g[u]]
        0 <= i < s.order.len() && 0 <= u < n && hits(g[u], s.order[i]) > 0
            ==> s.order.take(i).contains(u)
}

proof fn lemma_release_holds(g: Links, s: Sorting, rest: Seq<RouteEdge>)
    requires
        closed_graph(g),
        sorting_holds(g, s, rest),
        rest.len() > 0,
        forall|k: int| 0 <= k < rest.len() ==> (#[trigger] rest[k]).next < g.len(),
    ensures
        s.open[rest[0].next as int] > 0,
        sorting_holds(g, released(s, rest[0]), rest.drop_first()),
        released(s, rest[0]).order == s.order,
{
    let v = rest[0].next as int;
    let t = released(s, rest[0]);
    let n = g.len() as int;
    assert forall|w: int| #[trigger] hits(rest, w) == hits(rest.drop_first(), w) + if w == v {
        1nat
    } else {
        0nat
    } by {
        lemma_hits_first(rest, w);
    }
    lemma_hits_positive(rest, 0);
    assert(s.open[v] > 0);
    assert(!(s.order + s.ready).contains(v));
    let all = s.order + s.ready;
    if t.open[v] == 0 {
        assert(t.order + t.ready =~= all.push(v));
        assert forall|i: int, j: int| 0 <= i < j < all.push(v).len() implies all.push(v)[i]
            != all.push(v)[j] by {
            if j == all.len() {
                assert(all.contains(all[i]));
            }
        }
        assert forall|w: int| 0 <= w < n implies (#[trigger] t.open[w] == 0 <==> all.push(
            v,
        ).contains(w)) by {
            assert(all.push(v)[all.len() as int] == v);
            assert(s.open[w] == 0 <==> all.contains(w));
            if all.contains(w) {
                let i = choose|i: int| 0 <= i < all.len() && all[i] == w;
                assert(all.push(v)[i] == w);
            }
            if all.push(v).contains(w) && w != v {
                let i = choose|i: int| 0 <= i < all.push(v).len() && all.push(v)[i] == w;
                assert(all[i] == w);
            }
        }
    } else {
        assert(t.order + t.ready =~= all);
        assert forall|w: int| 0 <= w < n implies (#[trigger] t.open[w] == 0 <==> all.contains(
            w,
        )) by {
            assert(s.open[w] == 0 <==> all.contains(w));
        }
    }
    assert forall|w: int| 0 <= w < n implies #[trigger] t.open[w] == open_into(
        g,
        t.order,
        w,
        n as nat,
    ) + hits(rest.drop_first(), w) by {
        assert(s.open[w] == open_into(g, s.order, w, n as nat) + hits(rest, w));
    }
}

proof fn lemma_hits_first(edges: Seq<RouteEdge>, v: int)
    requires
        edges.len() > 0,
    ensures
        hits(edges, v) == hits(edges.drop_first(), v) + if edges[0].next == v {
            1nat
        } else {
            0nat
        },
    decreases edges.len(),
{
    if edges.len() > 1 {
        lemma_hits_first(edges.drop_last(), v);
        assert(edges.drop_last().drop_first() =~= edges.drop_first().drop_last());
        assert(edges.drop_first().last() == edges.last());
    } else {
        assert(edges.drop_last() =~= Seq::empty());
        assert(edges.drop_first() =~= Seq::empty());
    }
}

proof fn lemma_take_ready_holds(g: Links, s: Sorting)
    requires
        closed_graph(g),
        sorting_holds(g, s, Seq::empty()),
        s.ready.len() > 0,
    ensures
        0 <= s.ready[0] < g.len(),
        ({
            let v = s.ready[0];
            let taken = Sorting { order: s.order.push(v), ready: s.ready.drop_first(), ..s };
            sorting_holds(g, taken, g[v])
        }),
{
    let n = g.len() as int;
    let v = s.ready[0];
    let t = Sorting { order: s.order.push(v), ready: s.ready.drop_first(), ..s };
    let all = s.order + s.ready;
    assert(all[s.order.len() as int] == v);
    assert(t.order + t.ready =~= all);
    assert(!s.order.contains(v)) by {
        if s.order.contains(v) {
            let i = choose|i: int| 0 <= i < s.order.len() && s.order[i] == v;
            assert(all[i] == v);
        }
    }
    assert forall|w: int| 0 <= w < n implies #[trigger] t.open[w] == open_into(
        g,
        t.order,
        w,
        n as nat,
    ) + hits(g[v], w) by {
        assert(s.open[w] == open_into(g, s.order, w, n as nat) + hits(Seq::empty(), w));
        lemma_open_push(g, s.order, v, w, n as nat);
    }
    assert forall|i: int, u: int|
        #![trigger t.order[i], g[u]]
        0 <= i < t.order.len() && 0 <= u < n && hits(g[u], t.order[i]) > 0 implies t.order.take(
        i,
    ).contains(u) by {
        if i < s.order.len() {
            assert(t.order[i] == s.order[i]);
            assert(t.order.take(i) =~= s.order.take(i));
        } else {
            assert(all.contains(v));
            assert(s.open[v] == 0);
            assert(t.order.take(i) =~= s.order);
            if !s.order.contains(u) {
                lemma_open_zero(g, s.order, v, n as nat, u);
            }
        }
    }
}

proof fn lemma_released_all_holds(g: Links, s: Sorting, edges: Seq<RouteEdge>, k: nat)
    requires
        closed_graph(g),
        sorting_holds(g, s, edges),
        k <= edges.len(),
        forall|i: int| 0 <= i < edges.len() ==> (#[trigger] edges[i]).next < g.len(),
    ensures
        sorting_holds(g, released_all(s, edges.take(k as int)), edges.skip(k as int)),
        released_all(s, edges.take(k as int)).order == s.order,
    decreases k,
{
    if k == 0 {
        assert(edges.take(0) =~= Seq::empty());
        assert(edges.skip(0) =~= edges);
    } else {
        lemma_released_all_holds(g, s, edges, (k - 1) as nat);
        let before = released_all(s, edges.take(k - 1));
        let rest = edges.skip(k - 1);
        assert forall|i: int| 0 <= i < rest.len() implies (#[trigger] rest[i]).next < g.len() by {
            assert(rest[i] == edges[i + k - 1]);
        }
        lemma_release_holds(g, before, rest);
        assert(edges.take(k as int).drop_last() =~= edges.take(k - 1));
        assert(edges.take(k as int).last() == rest[0]);
        assert(rest.drop_first() =~= edges.skip(k as int));
    }
}

/// Sorting one node keeps the invariant.
pub proof fn lemma_sorted_one_holds(g: Links, s: Sorting)
    requires
        closed_graph(g),
        sorting_holds(g, s, Seq::empty()),
        s.ready.len() > 0,
    ensures
        sorting_holds(g, sorted_one(g, s), Seq::empty()),
        sorted_one(g, s).order == s.order.push(s.ready[0]),
        sorted_one(g, s).order.len() <= g.len(),
{
    let v = s.ready[0];
    let t = Sorting { order: s.order.push(v), ready: s.ready.drop_first(), ..s };
    lemma_take_ready_holds(g, s);
    lemma_released_all_holds(g, t, g[v], g[v].len());
    assert(g[v].take(g[v].len() as int) =~= g[v]);
    assert(g[v].skip(g[v].len() as int) =~= Seq::empty());
    let end = sorted_one(g, s);
    assert forall|i: int| 0 <= i < end.order.len() implies 0 <= #[trigger] end.order[i]
        < g.len() by {
        assert((end.order + end.ready)[i] == end.order[i]);
    }
    assert forall|i: int, j: int| 0 <= i < j < end.order.len() implies end.order[i]
        != end.order[j] by {
        assert((end.order + end.ready)[i] == end.order[i]);
        assert((end.order + end.ready)[j] == end.order[j]);
    }
    lemma_distinct_bound(end.order, g.len() as int);
}

proof fn lemma_sources(g: Links, n: nat)
    ensures
        forall|i: int| 0 <= i < sources(g, n).len() ==> 0 <= #[trigger] sources(g, n)[i] < n,
        forall|i: int, j: int|
            0 <= i < j < sources(g, n).len() ==> sources(g, n)[i] < sources(g, n)[j],
        forall|v: int| #[trigger]
            sources(g, n).contains(v) <==> 0 <= v < n && indegree(g, v) == 0,
    decreases n,
{
    if n > 0 {
        lemma_sources(g, (n - 1) as nat);
        let before = sources(g, (n - 1) as nat);
        let all = sources(g, n);
        assert forall|v: int| #[trigger] all.contains(v) <==> 0 <= v < n && indegree(g, v)
            == 0 by {
            assert(before.contains(v) <==> 0 <= v < n - 1 && indegree(g, v) == 0);
            if before.contains(v) {
                let i = choose|i: int| 0 <= i < before.len() && before[i] == v;
                assert(all[i] == v);
            }
            if v == n - 1 && indegree(g, v) == 0 {
                assert(all[before.len() as int] == v);
            }
            if all.contains(v) {
                let i = choose|i: int| 0 <= i < all.len() && all[i] == v;
                if i < before.len() {
                    assert(before[i] == v);
                }
            }
        }
    }
}

/// The invariant holds at the start.
pub proof fn lemma_unsorted_holds(g: Links)
    requires
        closed_graph(g),
    ensures
        sorting_holds(g, unsorted(g), Seq::empty()),
{
    let s = unsorted(g);
    lemma_sources(g, g.len());
    assert(s.order + s.ready =~= s.ready);
    assert forall|v: int| 0 <= v < g.len() implies (#[trigger] s.open[v] == 0 <==> (s.order
        + s.ready).contains(v)) by {
        assert(s.ready.contains(v) <==> 0 <= v < g.len() && indegree(g, v) == 0);
    }
}

proof fn lemma_sorted_more(g: Links, s: Sorting, n: nat)
    requires
        closed_graph(g),
        sorting_holds(g, s, Seq::empty()),
        s.order.len() + n == g.len(),
    ensures
        sorting_holds(g, sorted_more(g, s, n), Seq::empty()),
        sorted_more(g, s, n).ready.len() == 0,
    decreases n,
{
    if n > 0 && s.ready.len() > 0 {
        lemma_sorted_one_holds(g, s);
        lemma_sorted_more(g, sorted_one(g, s), (n - 1) as nat);
    } else if s.ready.len() > 0 {
        lemma_distinct_bound(s.order + s.ready, g.len() as int);
    }
}

/// A topological order holds different nodes, and all edges into a node come from nodes
/// before it.
pub proof fn law_order_is_topological(g: Links)
    requires
        closed_graph(g),
    ensures
        distinct_nodes(topological_order(g), g.len() as int),
        topological_order(g).len() <= g.len(),
        forall|i: int, u: int, k: int|
            #![trigger topological_order(g)[i], g[u][k]]
            0 <= i < topological_order(g).len() && 0 <= u < g.len() && 0 <= k < g[u].len()
                && g[u][k].next == topological_order(g)[i] ==> topological_order(g).take(
                i,
            ).contains(u),
{
    lemma_unsorted_holds(g);
    lemma_sorted_more(g, unsorted(g), g.len());
    let end = sorted_more(g, unsorted(g), g.len());
    let order = topological_order(g);
    assert(end.order + end.ready =~= order);
    lemma_distinct_bound(order, g.len() as int);
    assert forall|i: int, u: int, k: int|
        #![trigger topological_order(g)[i], g[u][k]]
        0 <= i < order.len() && 0 <= u < g.len() && 0 <= k < g[u].len() && g[u][k].next
            == order[i] implies order.take(i).contains(u) by {
        lemma_hits_positive(g[u], k);
        assert(hits(g[u], end.order[i]) > 0);
    }
}

/// A node of smallest rank outside `order`.
proof fn lemma_lowest(rank: Seq<int>, order: Seq<int>, n: int, v: int) -> (low: int)
    requires
        0 <= v < n <= rank.len(),
        !order.contains(v),
    ensures
        0 <= low < n,
        !order.contains(low),
        forall|u: int| 0 <= u < n && !order.contains(u) ==> rank[low] <= #[trigger] rank[u],
    decreases n,
{
    if n == 1 {
        0
    } else if v == n - 1 && forall|u: int| 0 <= u < n - 1 ==> #[trigger] order.contains(u) {
        v
    } else {
        let w = if v < n - 1 {
            v
        } else {
            choose|u: int| 0 <= u < n - 1 && !#[trigger] order.contains(u)
        };
        let low = lemma_lowest(rank, order, n - 1, w);
        if !order.contains(n - 1) && rank[n - 1] < rank[low] {
            n - 1
        } else {
            low
        }
    }
}

/// All nodes are sorted if and only if there is no cycle.
pub proof fn law_order_is_complete(g: Links)
    requires
        closed_graph(g),
    ensures
        topological_order(g).len() == g.len() <==> acyclic(g),
{
    let order = topological_order(g);
    let n = g.len() as int;
    law_order_is_topological(g);
    if acyclic(g) && order.len() < n {
        let rank = choose|rank: Seq<int>| ranked(g, rank);
        lemma_unsorted_holds(g);
        lemma_sorted_more(g, unsorted(g), g.len());
        let end = sorted_more(g, unsorted(g), g.len());
        assert(end.order + end.ready =~= order);
        let v = lemma_missing(order, n);
        let low = lemma_lowest(rank, order, n, v);
        assert(end.open[low] > 0) by {
            assert(end.open[low] == open_into(g, order, low, n as nat) + hits(Seq::empty(), low));
            assert(end.open[low] == 0 <==> (end.order + end.ready).contains(low));
        }
        let u = lemma_open_positive(g, order, low, n as nat);
        let k = lemma_hits_witness(g[u], low);
        assert(rank[u] < rank[g[u][k].next as int]);
        assert(rank[low] <= rank[u]);
    }
    if order.len() == n {
        let rank = Seq::new(g.len(), |v: int| place(order, v));
        assert forall|u: int, k: int| 0 <= u < n && 0 <= k < g[u].len() implies rank[u]
            < rank[(#[trigger] g[u][k]).next as int] by {
            let v = g[u][k].next as int;
            lemma_distinct_full(order, n, u);
            lemma_distinct_full(order, n, v);
            let i = place(order, v);
            assert(order[i] == v);
            assert(order.take(i).contains(u));
            let j = choose|j: int| 0 <= j < order.take(i).len() && order.take(i)[j] == u;
            assert(order[j] == u);
            lemma_place(order, n, j);
        }
        assert(ranked(g, rank));
    }
}

/// Where a node stands in the order.
pub open spec fn place(order: Seq<int>, v: int) -> int {
    choose|i: int| 0 <= i < order.len() && order[i] == v
}

/// A node stands in one place.
pub proof fn lemma_place(order: Seq<int>, n: int, i: int)
    requires
        distinct_nodes(order, n),
        0 <= i < order.len(),
    ensures
        place(order, order[i]) == i,
{
    let p = place(order, order[i]);
    assert(order[p] == order[i]);
}

/// Fewer different nodes than there are leave one out.
proof fn lemma_missing(order: Seq<int>, n: int) -> (v: int)
    requires
        distinct_nodes(order, n),
        order.len() < n,
    ensures
        0 <= v < n,
        !order.contains(v),
{
    if forall|v: int| 0 <= v < n ==> #[trigger] order.contains(v) {
        lemma_covering(order, n);
    }
    choose|v: int| 0 <= v < n && !#[trigger] order.contains(v)
}

/// A sequence that holds `n` different numbers is at least that long.
proof fn lemma_covering(order: Seq<int>, n: int)
    requires
        0 <= n,
        forall|v: int| 0 <= v < n ==> #[trigger] order.contains(v),
    ensures
        order.len() >= n,
    decreases n,
{
    if n > 0 {
        assert(order.contains(n - 1));
        let i = choose|i: int| 0 <= i < order.len() && order[i] == n - 1;
        let rest = order.remove(i);
        assert forall|v: int| 0 <= v < n - 1 implies #[trigger] rest.contains(v) by {
            assert(order.contains(v));
            let j = choose|j: int| 0 <= j < order.len() && order[j] == v;
            if j < i {
                assert(rest[j] == v);
            } else {
                assert(rest[j - 1] == v);
            }
        }
        lemma_covering(rest, n - 1);
    }
}

/// The first node in topological order is the first source.
pub proof fn lemma_first_is_source(g: Links)
    requires
        closed_graph(g),
        sources(g, g.len()).len() > 0,
    ensures
        topological_order(g).len() > 0,
        topological_order(g)[0] == sources(g, g.len())[0],
{
    let s = unsorted(g);
    lemma_sources(g, g.len());
    assert(g.len() > 0) by {
        assert(0 <= sources(g, g.len())[0] < g.len());
    }
    lemma_unsorted_holds(g);
    lemma_sorted_one_holds(g, s);
    lemma_sorted_more_extends(g, sorted_one(g, s), (g.len() - 1) as nat);
}

proof fn lemma_sorted_more_extends(g: Links, s: Sorting, n: nat)
    requires
        closed_graph(g),
        sorting_holds(g, s, Seq::empty()),
        s.order.len() > 0,
    ensures
        sorted_more(g, s, n).order.len() > 0,
        sorted_more(g, s, n).order[0] == s.order[0],
    decreases n,
{
    if n > 0 && s.ready.len() > 0 {
        lemma_sorted_one_holds(g, s);
        lemma_sorted_more_extends(g, sorted_one(g, s), (n - 1) as nat);
    }
}

/// An edge leads to every node but the first, if there is one source.
pub proof fn lemma_predecessor(g: Links, v: int) -> (edge: (int, int))
    requires
        closed_graph(g),
        sources(g, g.len()).len() == 1,
        0 <= v < g.len(),
        v != topological_order(g)[0],
    ensures
        0 <= edge.0 < g.len(),
        0 <= edge.1 < g[edge.0].len(),
        g[edge.0][edge.1].next == v,
{
    lemma_first_is_source(g);
    lemma_sources(g, g.len());
    let all = sources(g, g.len());
    if indegree(g, v) == 0 {
        assert(all.contains(v));
        let i = choose|i: int| 0 <= i < all.len() && all[i] == v;
        assert(i == 0);
    }
    let u = lemma_open_positive(g, Seq::empty(), v, g.len());
    let k = lemma_hits_witness(g[u], v);
    (u, k)
}

// ---------------------------------------------------------------------------
// Sorting
// ---------------------------------------------------------------------------

/// Node numbers as integers.
pub open spec fn numbers(nodes: Seq<usize>) -> Seq<int> {
    Seq::new(nodes.len(), |i: int| nodes[i] as int)
}

/// Counts as integers.
pub open spec fn counts(open: Seq<u128>) -> Seq<int> {
    Seq::new(open.len(), |i: int| open[i] as int)
}

proof fn lemma_hits_bound(edges: Seq<RouteEdge>, v: int)
    ensures
        hits(edges, v) <= edges.len(),
    decreases edges.len(),
{
    if edges.len() > 0 {
        lemma_hits_bound(edges.drop_last(), v);
    }
}

/// The counts fit 128 bits.
proof fn lemma_open_bound(g: Links, done: Seq<int>, v: int, n: nat)
    requires
        n <= g.len(),
        forall|u: int| 0 <= u < g.len() ==> (#[trigger] g[u]).len() <= usize::MAX,
    ensures
        open_into(g, done, v, n) <= n * usize::MAX,
    decreases n,
{
    if n > 0 {
        lemma_open_bound(g, done, v, (n - 1) as nat);
        lemma_hits_bound(g[n - 1], v);
        assert(g[n - 1].len() <= usize::MAX);
        assert((n - 1) * usize::MAX + usize::MAX == n * usize::MAX) by (nonlinear_arith);
    } else {
        assert(n * usize::MAX == 0) by (nonlinear_arith)
            requires
                n == 0,
        ;
    }
}

/// Counts the edges into each node.
fn count_edges(graph: &RouteGraph) -> (open: Vec<u128>)
    requires
        closed_graph(graph@),
    ensures
        counts(open@) == unsorted(graph@).open,
        open@.len() == graph@.len(),
{
    let ghost g = graph@;
    let n: usize = graph.nodes.len();
    let mut open: Vec<u128> = Vec::new();
    let mut i: usize = 0;
    while i < n
        invariant
            i <= n,
            open@.len() == i,
            forall|v: int| 0 <= v < i ==> open@[v] == 0,
        decreases n - i,
    {
        open.push(0);
        i = i + 1;
    }
    let mut u: usize = 0;
    proof {
        assert forall|v: int| 0 <= v < n implies #[trigger] open@[v] == open_into(
            g,
            Seq::empty(),
            v,
            0,
        ) by {}
    }
    while u < n
        invariant
            u <= n,
            n == graph.nodes@.len() == g.len(),
            g == graph@,
            closed_graph(g),
            open@.len() == n,
            forall|v: int| 0 <= v < n ==> #[trigger] open@[v] == open_into(
                g,
                Seq::empty(),
                v,
                u as nat,
            ),
        decreases n - u,
    {
        let ghost before = open@;
        let edges = &graph.nodes[u].edges;
        assert(edges@ == g[u as int]);
        let mut k: usize = 0;
        assert(edges@.take(0) =~= Seq::empty());
        while k < edges.len()
            invariant
                u < n,
                n == g.len(),
                g == graph@,
                closed_graph(g),
                edges@ == g[u as int],
                k <= edges@.len(),
                open@.len() == n,
                before.len() == n,
                forall|v: int| 0 <= v < n ==> #[trigger] before[v] == open_into(
                    g,
                    Seq::empty(),
                    v,
                    u as nat,
                ),
                forall|v: int| 0 <= v < n ==> #[trigger] open@[v] == before[v] + hits(
                    edges@.take(k as int),
                    v,
                ),
            decreases edges@.len() - k,
        {
            let next: usize = edges[k].next as usize;
            proof {
                assert(g[u as int][k as int].next < g.len());
                lemma_hits_bound(edges@.take(k as int), next as int);
                assert forall|w: int| 0 <= w < g.len() implies (#[trigger] g[w]).len()
                    <= usize::MAX by {
                    assert(graph.nodes@[w].edges.len() == g[w].len());
                }
                lemma_open_bound(g, Seq::empty(), next as int, u as nat);
                assert(u * usize::MAX + usize::MAX < 0x1_0000_0000_0000_0000_0000_0000_0000_0000)
                    by (nonlinear_arith)
                    requires
                        u < usize::MAX,
                        usize::MAX <= 0xffff_ffff_ffff_ffff,
                ;
                assert(edges@.take(k + 1).drop_last() =~= edges@.take(k as int));
            }
            let count: u128 = open[next] + 1;
            open.set(next, count);
            k = k + 1;
        }
        proof {
            assert(edges@.take(k as int) =~= edges@);
            assert(!Seq::<int>::empty().contains(u as int));
        }
        u = u + 1;
    }
    assert(counts(open@) =~= unsorted(g).open);
    open
}

/// How many nodes no edge leads to.
pub fn count_sources(graph: &RouteGraph) -> (count: usize)
    requires
        closed_graph(graph@),
    ensures
        count == sources(graph@, graph@.len()).len(),
{
    let ghost g = graph@;
    let open = count_edges(graph);
    let mut count: usize = 0;
    let mut v: usize = 0;
    while v < open.len()
        invariant
            v <= open@.len(),
            open@.len() == g.len(),
            counts(open@) == unsorted(g).open,
            count <= v,
            count == sources(g, v as nat).len(),
        decreases open@.len() - v,
    {
        proof {
            assert(counts(open@)[v as int] == open@[v as int]);
            assert(unsorted(g).open[v as int] == indegree(g, v as int));
        }
        if open[v] == 0 {
            count = count + 1;
        }
        v = v + 1;
    }
    count
}

/// The nodes in topological order.
pub fn sort_nodes(graph: &RouteGraph) -> (order: Vec<usize>)
    requires
        closed_graph(graph@),
    ensures
        numbers(order@) == topological_order(graph@),
{
    let ghost g = graph@;
    let n: usize = graph.nodes.len();
    let mut open = count_edges(graph);
    let mut ready: VecDeque<usize> = VecDeque::new();
    let mut v: usize = 0;
    while v < n
        invariant
            v <= n,
            n == g.len(),
            g == graph@,
            open@.len() == n,
            counts(open@) == unsorted(g).open,
            numbers(ready@) == sources(g, v as nat),
        decreases n - v,
    {
        proof {
            assert(counts(open@)[v as int] == open@[v as int]);
            assert(unsorted(g).open[v as int] == indegree(g, v as int));
        }
        if open[v] == 0 {
            let ghost before = ready@;
            ready.push_back(v);
            assert(numbers(ready@) =~= numbers(before).push(v as int));
        }
        v = v + 1;
    }
    let mut order: Vec<usize> = Vec::new();
    proof {
        lemma_unsorted_holds(g);
        assert(numbers(order@) =~= Seq::empty());
    }
    loop
        invariant
            n == g.len(),
            g == graph@,
            closed_graph(g),
            ({
                let s = Sorting {
                    order: numbers(order@),
                    ready: numbers(ready@),
                    open: counts(open@),
                };
                &&& sorting_holds(g, s, Seq::empty())
                &&& order@.len() <= n
                &&& sorted_more(g, s, (n - order@.len()) as nat).order == topological_order(g)
            }),
        ensures
            numbers(order@) == topological_order(g),
        decreases n - order@.len(),
    {
        let ghost s = Sorting {
            order: numbers(order@),
            ready: numbers(ready@),
            open: counts(open@),
        };
        let node: usize = match ready.pop_front() {
            None => {
                assert(s.ready.len() == 0);
                break;
            },
            Some(node) => node,
        };
        proof {
            assert(s.ready[0] == node);
            assert(numbers(ready@) =~= s.ready.drop_first());
            lemma_take_ready_holds(g, s);
            lemma_sorted_one_holds(g, s);
        }
        order.push(node);
        proof {
            assert(numbers(order@) =~= s.order.push(node as int));
        }
        let ghost taken = Sorting {
            order: numbers(order@),
            ready: numbers(ready@),
            open: counts(open@),
        };
        let edges = &graph.nodes[node].edges;
        assert(edges@ == g[node as int]);
        let mut k: usize = 0;
        assert(edges@.take(0) =~= Seq::empty());
        while k < edges.len()
            invariant
                n == g.len(),
                g == graph@,
                closed_graph(g),
                node < n,
                edges@ == g[node as int],
                k <= edges@.len(),
                sorting_holds(g, taken, edges@),
                taken.order == numbers(order@),
                ({
                    let now = Sorting {
                        order: numbers(order@),
                        ready: numbers(ready@),
                        open: counts(open@),
                    };
                    now == released_all(taken, edges@.take(k as int))
                }),
            decreases edges@.len() - k,
        {
            let ghost now = Sorting {
                order: numbers(order@),
                ready: numbers(ready@),
                open: counts(open@),
            };
            let next: usize = edges[k].next as usize;
            proof {
                assert(g[node as int][k as int].next < g.len());
                assert forall|i: int| 0 <= i < edges@.len() implies (#[trigger] edges@[i]).next
                    < g.len() by {
                    assert(g[node as int][i].next < g.len());
                }
                lemma_released_all_holds(g, taken, edges@, k as nat);
                let rest = edges@.skip(k as int);
                assert forall|i: int| 0 <= i < rest.len() implies (#[trigger] rest[i]).next
                    < g.len() by {
                    assert(rest[i] == edges@[i + k]);
                }
                lemma_release_holds(g, now, rest);
                assert(edges@.take(k + 1).drop_last() =~= edges@.take(k as int));
                assert(counts(open@)[next as int] == open@[next as int]);
            }
            let left: u128 = open[next] - 1;
            open.set(next, left);
            proof {
                assert(counts(open@) =~= now.open.update(next as int, left as int));
            }
            if left == 0 {
                let ghost before = ready@;
                ready.push_back(next);
                assert(numbers(ready@) =~= numbers(before).push(next as int));
            }
            k = k + 1;
        }
        proof {
            assert(edges@.take(k as int) =~= edges@);
        }
    }
    order
}

} // verus!
