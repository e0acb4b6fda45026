//! Route graphs from named edges.
use vstd::prelude::*;

use crate::config::sorting;
use crate::machine::ChannelId;
use crate::routing;
use crate::routing::{RouteEdge, RouteGraph, RouteNode};

verus! {

/// The number of edges up to which nodes can be numbered.
pub const MAX_ROUTE_EDGES: usize = 0x7fff_ffff;

/// An edge between two named nodes.
#[derive(Debug, Clone)]
pub struct RouteEdgeConfig {
    pub from: String,
    pub to: String,
    pub channel: ChannelId,
    pub capacity_hint_kbps: u32,
    pub latency_hint_ms: u32,
}

/// The content of a named edge.
#[verifier::ext_equal]
pub struct NamedEdge {
    pub from: Seq<char>,
    pub to: Seq<char>,
    pub channel: ChannelId,
    pub capacity_hint_kbps: u32,
    pub latency_hint_ms: u32,
}

impl View for RouteEdgeConfig {
    type V = NamedEdge;

    open spec fn view(&self) -> NamedEdge {
        NamedEdge {
            from: self.from@,
            to: self.to@,
            channel: self.channel,
            capacity_hint_kbps: self.capacity_hint_kbps,
            latency_hint_ms: self.latency_hint_ms,
        }
    }
}

pub open spec fn named_edges(edges: Seq<RouteEdgeConfig>) -> Seq<NamedEdge> {
    Seq::new(edges.len(), |i: int| edges[i]@)
}

/// The names with one more, unless it is known.
pub open spec fn noted(names: Seq<Seq<char>>, name: Seq<char>) -> Seq<Seq<char>> {
    if names.contains(name) {
        names
    } else {
        names.push(name)
    }
}

/// The names of all nodes, in the order in which they occur.
pub open spec fn names_of(edges: Seq<NamedEdge>) -> Seq<Seq<char>>
    decreases edges.len(),
{
    if edges.len() == 0 {
        Seq::empty()
    } else {
        noted(noted(names_of(edges.drop_last()), edges.last().from), edges.last().to)
    }
}

/// The number of a node.
pub open spec fn node_of(names: Seq<Seq<char>>, name: Seq<char>) -> int {
    choose|i: int| 0 <= i < names.len() && names[i] == name
}

pub open spec fn link_of(names: Seq<Seq<char>>, edge: NamedEdge) -> RouteEdge {
    RouteEdge {
        channel_id: edge.channel,
        next: node_of(names, edge.to) as u32,
        capacity_hint_kbps: edge.capacity_hint_kbps,
        latency_hint_ms: edge.latency_hint_ms,
    }
}

/// The edges from the node `name`, in the order in which they occur.
pub open spec fn links_from(
    edges: Seq<NamedEdge>,
    names: Seq<Seq<char>>,
    name: Seq<char>,
) -> Seq<RouteEdge>
    decreases edges.len(),
{
    if edges.len() == 0 {
        Seq::empty()
    } else if edges.last().from == name {
        links_from(edges.drop_last(), names, name).push(link_of(names, edges.last()))
    } else {
        links_from(edges.drop_last(), names, name)
    }
}

/// The graph, its nodes numbered in the order in which their names occur.
pub open spec fn graph_of(edges: Seq<NamedEdge>) -> sorting::Links {
    let names = names_of(edges);
    Seq::new(names.len(), |v: int| links_from(edges, names, names[v]))
}

/// How many of the first `n` nodes no edge leaves.
pub open spec fn sink_count(g: sorting::Links, n: nat) -> nat
    decreases n,
{
    if n == 0 {
        0
    } else {
        sink_count(g, (n - 1) as nat) + if g[n - 1].len() == 0 {
            1nat
        } else {
            0nat
        }
    }
}

/// What the edges of a route have to satisfy: there is one source and one destination, and
/// no cycle.
pub open spec fn buildable(edges: Seq<NamedEdge>) -> bool {
    let g = graph_of(edges);
    &&& 0 < edges.len() <= MAX_ROUTE_EDGES
    &&& sorting::sources(g, g.len()).len() == 1
    &&& sink_count(g, g.len()) == 1
    &&& sorting::acyclic(g)
}

/// The edges of a node after the nodes have been put in `order`.
pub open spec fn renumbered(edges: Seq<RouteEdge>, order: Seq<int>) -> Seq<RouteEdge> {
    Seq::new(
        edges.len(),
        |k: int|
            RouteEdge { next: sorting::place(order, edges[k].next as int) as u32, ..edges[k] },
    )
}

/// The graph with its nodes in topological order.
pub open spec fn route_of(edges: Seq<NamedEdge>) -> sorting::Links {
    let g = graph_of(edges);
    let order = sorting::topological_order(g);
    Seq::new(order.len(), |p: int| renumbered(g[order[p]], order))
}

// ---------------------------------------------------------------------------
// Names
// ---------------------------------------------------------------------------

pub open spec fn distinct_names(names: Seq<Seq<char>>) -> bool {
    forall|i: int, j: int| 0 <= i < j < names.len() ==> names[i] != names[j]
}

proof fn lemma_noted(names: Seq<Seq<char>>, name: Seq<char>)
    requires
        distinct_names(names),
    ensures
        distinct_names(noted(names, name)),
        noted(names, name).contains(name),
        forall|other: Seq<char>| #[trigger]
            names.contains(other) ==> noted(names, name).contains(other),
        noted(names, name).len() <= names.len() + 1,
{
    let all = noted(names, name);
    if !names.contains(name) {
        assert(all[names.len() as int] == name);
        assert forall|i: int, j: int| 0 <= i < j < all.len() implies all[i] != all[j] by {
            if j == names.len() {
                assert(names.contains(names[i]));
            }
        }
        assert forall|other: Seq<char>| #[trigger] names.contains(other) implies all.contains(
            other,
        ) by {
            let i = choose|i: int| 0 <= i < names.len() && names[i] == other;
            assert(all[i] == other);
        }
    }
}

pub proof fn lemma_names(edges: Seq<NamedEdge>)
    ensures
        distinct_names(names_of(edges)),
        names_of(edges).len() <= 2 * edges.len(),
        forall|i: int|
            0 <= i < edges.len() ==> names_of(edges).contains((#[trigger] edges[i]).from)
                && names_of(edges).contains(edges[i].to),
    decreases edges.len(),
{
    if edges.len() > 0 {
        let front = edges.drop_last();
        lemma_names(front);
        let one = noted(names_of(front), edges.last().from);
        lemma_noted(names_of(front), edges.last().from);
        lemma_noted(one, edges.last().to);
        assert forall|i: int| 0 <= i < edges.len() implies names_of(edges).contains(
            (#[trigger] edges[i]).from,
        ) && names_of(edges).contains(edges[i].to) by {
            if i < front.len() {
                assert(front[i] == edges[i]);
                assert(one.contains(edges[i].from) && one.contains(edges[i].to));
            } else {
                assert(one.contains(edges[i].from));
            }
        }
    }
}

pub proof fn lemma_node_of(names: Seq<Seq<char>>, i: int)
    requires
        distinct_names(names),
        0 <= i < names.len(),
    ensures
        node_of(names, names[i]) == i,
{
    let p = node_of(names, names[i]);
    assert(names[p] == names[i]);
}

pub proof fn lemma_links(edges: Seq<NamedEdge>, names: Seq<Seq<char>>, name: Seq<char>)
    requires
        forall|i: int| 0 <= i < edges.len() ==> names.contains((#[trigger] edges[i]).to),
        distinct_names(names),
        names.len() <= u32::MAX,
    ensures
        links_from(edges, names, name).len() <= edges.len(),
        forall|k: int|
            0 <= k < links_from(edges, names, name).len() ==> (#[trigger] links_from(
                edges,
                names,
                name,
            )[k]).next < names.len(),
    decreases edges.len(),
{
    if edges.len() > 0 {
        let front = edges.drop_last();
        assert forall|i: int| 0 <= i < front.len() implies names.contains(
            (#[trigger] front[i]).to,
        ) by {
            assert(front[i] == edges[i]);
        }
        lemma_links(front, names, name);
        let last = edges.last();
        assert(names.contains(edges[edges.len() - 1].to));
        let p = choose|p: int| 0 <= p < names.len() && names[p] == last.to;
        lemma_node_of(names, p);
    }
}

/// The edges lead to nodes of the graph.
pub proof fn lemma_graph_closed(edges: Seq<NamedEdge>)
    requires
        edges.len() <= MAX_ROUTE_EDGES,
    ensures
        sorting::closed_graph(graph_of(edges)),
        graph_of(edges).len() <= u32::MAX,
{
    lemma_names(edges);
    let names = names_of(edges);
    let g = graph_of(edges);
    assert forall|u: int, k: int| 0 <= u < g.len() && 0 <= k < g[u].len() implies (
    #[trigger] g[u][k]).next < g.len() by {
        lemma_links(edges, names, names[u]);
        assert(g[u] == links_from(edges, names, names[u]));
    }
}

pub open spec fn name_views(names: Seq<String>) -> Seq<Seq<char>> {
    Seq::new(names.len(), |i: int| names[i]@)
}

/// The number of the node `name`, if it is known.
fn find_name(names: &Vec<String>, name: &String) -> (found: Option<usize>)
    ensures
        match found {
            Some(i) => i < names@.len() && name_views(names@)[i as int] == name@,
            None => !name_views(names@).contains(name@),
        },
{
    let mut i: usize = 0;
    while i < names.len()
        invariant
            i <= names@.len(),
            forall|j: int| 0 <= j < i ==> name_views(names@)[j] != name@,
        decreases names@.len() - i,
    {
        if names[i] == *name {
            return Some(i);
        }
        i = i + 1;
    }
    None
}

fn note_name(names: &mut Vec<String>, name: &String)
    ensures
        name_views(final(names)@) == noted(name_views(old(names)@), name@),
{
    match find_name(names, name) {
        Some(i) => {
            assert(name_views(names@).contains(name@)) by {
                assert(name_views(names@)[i as int] == name@);
            }
        },
        None => {
            let ghost before = name_views(names@);
            names.push(name.clone());
            assert(name_views(names@) =~= before.push(name@));
        },
    }
}

fn collect_names(edges: &Vec<RouteEdgeConfig>) -> (names: Vec<String>)
    ensures
        name_views(names@) == names_of(named_edges(edges@)),
{
    let ghost all = named_edges(edges@);
    let mut names: Vec<String> = Vec::new();
    let mut i: usize = 0;
    assert(all.take(0) =~= Seq::empty());
    assert(name_views(names@) =~= Seq::empty());
    while i < edges.len()
        invariant
            i <= edges@.len(),
            all == named_edges(edges@),
            name_views(names@) == names_of(all.take(i as int)),
        decreases edges@.len() - i,
    {
        note_name(&mut names, &edges[i].from);
        note_name(&mut names, &edges[i].to);
        proof {
            assert(all.take(i + 1).drop_last() =~= all.take(i as int));
            assert(all.take(i + 1).last() == edges@[i as int]@);
        }
        i = i + 1;
    }
    assert(all.take(i as int) =~= all);
    names
}

/// The edges from one node.
fn collect_links(
    edges: &Vec<RouteEdgeConfig>,
    names: &Vec<String>,
    name: &String,
) -> (links: Vec<RouteEdge>)
    requires
        edges@.len() <= MAX_ROUTE_EDGES,
        name_views(names@) == names_of(named_edges(edges@)),
    ensures
        links@ == links_from(named_edges(edges@), name_views(names@), name@),
{
    let ghost all = named_edges(edges@);
    let ghost known = name_views(names@);
    proof {
        lemma_names(all);
    }
    let mut links: Vec<RouteEdge> = Vec::new();
    let mut i: usize = 0;
    assert(all.take(0) =~= Seq::empty());
    while i < edges.len()
        invariant
            i <= edges@.len(),
            all == named_edges(edges@),
            known == name_views(names@),
            distinct_names(known),
            known.len() <= u32::MAX,
            forall|j: int| 0 <= j < all.len() ==> known.contains((#[trigger] all[j]).to),
            links@ == links_from(all.take(i as int), known, name@),
        decreases edges@.len() - i,
    {
        let edge = &edges[i];
        proof {
            assert(all[i as int] == edge@);
            assert(all.take(i + 1).drop_last() =~= all.take(i as int));
            assert(all.take(i + 1).last() == edge@);
            assert(known.contains(all[i as int].to));
        }
        if edge.from == *name {
            if let Some(next) = find_name(names, &edge.to) {
                proof {
                    lemma_node_of(known, next as int);
                }
                links.push(
                    RouteEdge {
                        channel_id: edge.channel,
                        next: next as u32,
                        capacity_hint_kbps: edge.capacity_hint_kbps,
                        latency_hint_ms: edge.latency_hint_ms,
                    },
                );
            }
        }
        i = i + 1;
    }
    assert(all.take(i as int) =~= all);
    links
}

fn link_nodes(edges: &Vec<RouteEdgeConfig>) -> (graph: RouteGraph)
    requires
        edges@.len() <= MAX_ROUTE_EDGES,
    ensures
        graph@ == graph_of(named_edges(edges@)),
{
    let names = collect_names(edges);
    let mut nodes: Vec<RouteNode> = Vec::new();
    let mut v: usize = 0;
    while v < names.len()
        invariant
            edges@.len() <= MAX_ROUTE_EDGES,
            v <= names@.len(),
            v == nodes@.len(),
            name_views(names@) == names_of(named_edges(edges@)),
            forall|u: int|
                0 <= u < v ==> (#[trigger] nodes@[u]).edges@ == links_from(
                    named_edges(edges@),
                    name_views(names@),
                    name_views(names@)[u],
                ),
        decreases names@.len() - v,
    {
        let links = collect_links(edges, &names, &names[v]);
        nodes.push(RouteNode { edges: links });
        v = v + 1;
    }
    let graph = RouteGraph { nodes };
    assert(graph@ =~= graph_of(named_edges(edges@)));
    graph
}

fn count_sinks(graph: &RouteGraph) -> (count: usize)
    ensures
        count == sink_count(graph@, graph@.len()),
{
    let mut count: usize = 0;
    let mut v: usize = 0;
    while v < graph.nodes.len()
        invariant
            v <= graph.nodes@.len(),
            count <= v,
            count == sink_count(graph@, v as nat),
        decreases graph.nodes@.len() - v,
    {
        if graph.nodes[v].edges.len() == 0 {
            count = count + 1;
        }
        v = v + 1;
    }
    count
}

/// Puts the nodes of the graph in the given order.
fn reorder(graph: &RouteGraph, order: &Vec<usize>) -> (sorted: RouteGraph)
    requires
        sorting::closed_graph(graph@),
        graph@.len() <= u32::MAX,
        order@.len() == graph@.len(),
        sorting::numbers(order@) == sorting::topological_order(graph@),
    ensures
        sorted@ == Seq::new(
            order@.len(),
            |p: int| renumbered(graph@[order@[p] as int], sorting::numbers(order@)),
        ),
{
    let ghost g = graph@;
    let ghost numbers = sorting::numbers(order@);
    let n: usize = order.len();
    proof {
        sorting::law_order_is_topological(g);
    }
    let mut places: Vec<u32> = Vec::new();
    let mut i: usize = 0;
    while i < n
        invariant
            i <= n,
            places@.len() == i,
        decreases n - i,
    {
        places.push(0);
        i = i + 1;
    }
    let mut p: usize = 0;
    while p < n
        invariant
            p <= n == order@.len() == places@.len(),
            n == g.len(),
            g.len() <= u32::MAX,
            numbers == sorting::numbers(order@),
            sorting::distinct_nodes(numbers, n as int),
            forall|q: int|
                0 <= q < p ==> #[trigger] places@[order@[q] as int] == q,
        decreases n - p,
    {
        proof {
            assert(0 <= numbers[p as int] < n);
        }
        let node: usize = order[p];
        places.set(node, p as u32);
        proof {
            assert forall|q: int| 0 <= q < p + 1 implies #[trigger] places@[order@[q] as int]
                == q by {
                if q < p {
                    assert(numbers[q] != numbers[p as int]);
                    assert(0 <= numbers[q] < n);
                }
            }
        }
        p = p + 1;
    }
    let mut nodes: Vec<RouteNode> = Vec::new();
    p = 0;
    while p < n
        invariant
            p <= n == order@.len() == places@.len(),
            p == nodes@.len(),
            n == g.len(),
            g == graph@,
            g.len() <= u32::MAX,
            sorting::closed_graph(g),
            numbers == sorting::numbers(order@),
            sorting::distinct_nodes(numbers, n as int),
            forall|q: int|
                0 <= q < n ==> #[trigger] places@[order@[q] as int] == q,
            forall|q: int|
                0 <= q < p ==> (#[trigger] nodes@[q]).edges@ == renumbered(
                    g[order@[q] as int],
                    numbers,
                ),
        decreases n - p,
    {
        assert(0 <= numbers[p as int] < n);
        let edges = &graph.nodes[order[p]].edges;
        assert(edges@ == g[order@[p as int] as int]);
        let mut links: Vec<RouteEdge> = Vec::new();
        let mut k: usize = 0;
        while k < edges.len()
            invariant
                k <= edges@.len(),
                k == links@.len(),
                p < n,
                n == g.len() == order@.len() == places@.len(),
                sorting::closed_graph(g),
                edges@ == g[order@[p as int] as int],
                order@[p as int] < n,
                numbers == sorting::numbers(order@),
                sorting::distinct_nodes(numbers, n as int),
                forall|q: int|
                    0 <= q < n ==> #[trigger] places@[order@[q] as int] == q,
                forall|j: int|
                    0 <= j < k ==> #[trigger] links@[j] == renumbered(edges@, numbers)[j],
            decreases edges@.len() - k,
        {
            let edge: RouteEdge = edges[k];
            proof {
                let v = edge.next as int;
                assert(g[order@[p as int] as int][k as int].next < g.len());
                sorting::lemma_distinct_full(numbers, n as int, v);
                let q = choose|q: int| 0 <= q < numbers.len() && numbers[q] == v;
                sorting::lemma_place(numbers, n as int, q);
                assert(places@[order@[q] as int] == q);
            }
            links.push(
                RouteEdge {
                    channel_id: edge.channel_id,
                    next: places[edge.next as usize],
                    capacity_hint_kbps: edge.capacity_hint_kbps,
                    latency_hint_ms: edge.latency_hint_ms,
                },
            );
            k = k + 1;
        }
        assert(links@ =~= renumbered(edges@, numbers));
        nodes.push(RouteNode { edges: links });
        p = p + 1;
    }
    let sorted = RouteGraph { nodes };
    assert(sorted@ =~= Seq::new(
        order@.len(),
        |p: int| renumbered(graph@[order@[p] as int], sorting::numbers(order@)),
    ));
    sorted
}

/// The route graph of the edges, if they have one source and one destination and no cycle.
/// Its nodes are in topological order, those that can follow at the same time in the order in
/// which they became ready.
pub fn checked_route(edges: &Vec<RouteEdgeConfig>) -> (graph: Option<RouteGraph>)
    ensures
        match graph {
            Some(graph) => buildable(named_edges(edges@)) && graph@ == route_of(
                named_edges(edges@),
            ),
            None => !buildable(named_edges(edges@)),
        },
{
    if edges.len() == 0 || edges.len() > MAX_ROUTE_EDGES {
        return None;
    }
    let graph = link_nodes(edges);
    proof {
        lemma_graph_closed(named_edges(edges@));
        sorting::law_order_is_complete(graph@);
        sorting::law_order_is_topological(graph@);
    }
    if sorting::count_sources(&graph) != 1 || count_sinks(&graph) != 1 {
        return None;
    }
    let order = sorting::sort_nodes(&graph);
    assert(order@.len() == sorting::numbers(order@).len());
    if order.len() != graph.nodes.len() {
        return None;
    }
    let sorted = reorder(&graph, &order);
    assert(sorted@ =~= route_of(named_edges(edges@)));
    Some(sorted)
}

/// The route graph of the edges.
pub fn build_route(edges: Vec<RouteEdgeConfig>) -> (graph: RouteGraph)
    requires
        buildable(named_edges(edges@)),
    ensures
        graph@ == route_of(named_edges(edges@)),
{
    match checked_route(&edges) {
        Some(graph) => graph,
        None => RouteGraph { nodes: Vec::new() },
    }
}

// ---------------------------------------------------------------------------
// Laws
// ---------------------------------------------------------------------------

/// No node has two edges with the same channel.
pub open spec fn channels_differ(edges: Seq<NamedEdge>) -> bool {
    forall|i: int, j: int|
        0 <= i < j < edges.len() && (#[trigger] edges[i]).from == (#[trigger] edges[j]).from
            ==> edges[i].channel != edges[j].channel
}

proof fn lemma_links_from_edges(
    edges: Seq<NamedEdge>,
    names: Seq<Seq<char>>,
    name: Seq<char>,
    k: int,
) -> (i: int)
    requires
        0 <= k < links_from(edges, names, name).len(),
    ensures
        0 <= i < edges.len(),
        edges[i].from == name,
        links_from(edges, names, name)[k] == link_of(names, edges[i]),
    decreases edges.len(),
{
    let front = edges.drop_last();
    let before = links_from(front, names, name);
    if k < before.len() {
        let i = lemma_links_from_edges(front, names, name, k);
        assert(front[i] == edges[i]);
        i
    } else {
        edges.len() - 1
    }
}

proof fn lemma_link_channels(
    edges: Seq<NamedEdge>,
    names: Seq<Seq<char>>,
    name: Seq<char>,
)
    requires
        channels_differ(edges),
    ensures
        forall|j: int, k: int|
            0 <= j < k < links_from(edges, names, name).len() ==> (#[trigger] links_from(
                edges,
                names,
                name,
            )[j]).channel_id != (#[trigger] links_from(edges, names, name)[k]).channel_id,
    decreases edges.len(),
{
    if edges.len() > 0 {
        let front = edges.drop_last();
        assert(channels_differ(front)) by {
            assert forall|i: int, j: int|
                0 <= i < j < front.len() && (#[trigger] front[i]).from == (
                #[trigger] front[j]).from implies front[i].channel != front[j].channel by {
                assert(front[i] == edges[i] && front[j] == edges[j]);
            }
        }
        lemma_link_channels(front, names, name);
        let all = links_from(edges, names, name);
        let before = links_from(front, names, name);
        assert forall|j: int, k: int| 0 <= j < k < all.len() implies (
        #[trigger] all[j]).channel_id != (#[trigger] all[k]).channel_id by {
            assert(all[j] == before[j]);
            if k < before.len() {
                assert(all[k] == before[k]);
            } else {
                let i = lemma_links_from_edges(front, names, name, j);
                assert(front[i] == edges[i]);
                assert(edges[i].from == edges[edges.len() - 1].from);
            }
        }
    }
}

/// A route graph satisfies the contract of the endpoint: all edges lead forward, and no node
/// has two edges with the same channel, if the configuration gives it none.
pub proof fn law_route_is_ordered(edges: Seq<NamedEdge>)
    requires
        buildable(edges),
        channels_differ(edges),
    ensures
        routing::graph_ordered(route_of(edges)),
{
    let g = graph_of(edges);
    let names = names_of(edges);
    let order = sorting::topological_order(g);
    let n = g.len() as int;
    lemma_graph_closed(edges);
    sorting::law_order_is_complete(g);
    sorting::law_order_is_topological(g);
    let r = route_of(edges);
    lemma_route_nonempty(edges);
    assert forall|p: int, k: int| 0 <= p < r.len() && 0 <= k < r[p].len() implies p < (
    #[trigger] r[p][k]).next < r.len() by {
        lemma_route_edge(edges, p, k);
    }
    assert forall|p: int, j: int, k: int| 0 <= p < r.len() && 0 <= j < k < r[p].len() implies (
    #[trigger] r[p][j]).channel_id != (#[trigger] r[p][k]).channel_id by {
        let v = order[p];
        assert(0 <= v < n);
        lemma_link_channels(edges, names, names[v]);
        assert(g[v] == links_from(edges, names, names[v]));
        assert(r[p][j].channel_id == g[v][j].channel_id);
        assert(r[p][k].channel_id == g[v][k].channel_id);
    }
}

pub proof fn lemma_route_nonempty(edges: Seq<NamedEdge>)
    requires
        buildable(edges),
    ensures
        route_of(edges).len() == graph_of(edges).len(),
        graph_of(edges).len() >= 1,
{
    lemma_graph_closed(edges);
    sorting::law_order_is_complete(graph_of(edges));
    lemma_names(edges);
    assert(names_of(edges).contains(edges[0].from));
}

/// An edge of the route is an edge of the graph, and leads forward.
pub proof fn lemma_route_edge(edges: Seq<NamedEdge>, p: int, k: int)
    requires
        buildable(edges),
        0 <= p < route_of(edges).len(),
        0 <= k < route_of(edges)[p].len(),
    ensures
        ({
            let g = graph_of(edges);
            let order = sorting::topological_order(g);
            let e = g[order[p]][k];
            &&& 0 <= order[p] < g.len()
            &&& k < g[order[p]].len()
            &&& p < route_of(edges)[p][k].next < order.len()
            &&& order[route_of(edges)[p][k].next as int] == e.next
        }),
{
    let g = graph_of(edges);
    let order = sorting::topological_order(g);
    let n = g.len() as int;
    lemma_graph_closed(edges);
    sorting::law_order_is_complete(g);
    sorting::law_order_is_topological(g);
    let u = order[p];
    let v = g[u][k].next as int;
    assert(g[u][k].next < g.len());
    sorting::lemma_distinct_full(order, n, v);
    let q = sorting::place(order, v);
    assert(order[q] == v);
    assert(order.take(q).contains(u));
    let j = choose|j: int| 0 <= j < order.take(q).len() && order.take(q)[j] == u;
    assert(order[j] == u);
    assert(j == p) by {
        if j != p {
            assert(order[j] != order[p]);
        }
    }
}

/// The ends of a route graph: the first node is the source, the last one the destination.
/// Every other node is on the way: an edge leads to it from a node before it, and an edge
/// leads on from it.
pub proof fn law_route_leads_through(edges: Seq<NamedEdge>, p: int)
    requires
        buildable(edges),
        0 <= p < route_of(edges).len(),
    ensures
        p > 0 ==> exists|q: int, k: int|
            0 <= q < p && 0 <= k < route_of(edges)[q].len() && (
            #[trigger] route_of(edges)[q][k]).next == p,
        p < route_of(edges).len() - 1 <==> route_of(edges)[p].len() > 0,
{
    let g = graph_of(edges);
    let order = sorting::topological_order(g);
    let n = g.len() as int;
    let r = route_of(edges);
    lemma_graph_closed(edges);
    sorting::law_order_is_complete(g);
    sorting::law_order_is_topological(g);
    lemma_route_nonempty(edges);
    if r[r.len() - 1].len() > 0 {
        lemma_route_edge(edges, r.len() - 1, 0);
    }
    let v = order[p];
    let last = order[n - 1];
    assert(g[last].len() == 0);
    if p < n - 1 && g[v].len() == 0 {
        assert(order[p] != order[n - 1]);
        lemma_two_sinks(g, v, last, g.len());
    }
    if p > 0 {
        sorting::lemma_first_is_source(g);
        assert(order[0] != order[p]);
        let (u, k) = sorting::lemma_predecessor(g, v);
        assert(g[u][k].next == v);
        assert(order.take(p).contains(u));
        let q = choose|q: int| 0 <= q < order.take(p).len() && order.take(p)[q] == u;
        assert(order[q] == u);
        assert(r[q].len() == g[u].len());
        lemma_route_edge(edges, q, k);
        let next = r[q][k].next as int;
        assert(order[next] == v);
        if next != p {
            assert(order[next] != order[p]);
        }
    }
}

proof fn lemma_two_sinks(g: sorting::Links, a: int, b: int, n: nat)
    requires
        0 <= a < n,
        0 <= b < n,
        a != b,
        n <= g.len(),
        g[a].len() == 0,
        g[b].len() == 0,
    ensures
        sink_count(g, n) >= 2,
    decreases n,
{
    if a < n - 1 && b < n - 1 {
        lemma_two_sinks(g, a, b, (n - 1) as nat);
    } else if a == n - 1 {
        lemma_one_sink(g, b, (n - 1) as nat);
    } else {
        lemma_one_sink(g, a, (n - 1) as nat);
    }
}

proof fn lemma_one_sink(g: sorting::Links, a: int, n: nat)
    requires
        0 <= a < n,
        n <= g.len(),
        g[a].len() == 0,
    ensures
        sink_count(g, n) >= 1,
    decreases n,
{
    if a < n - 1 {
        lemma_one_sink(g, a, (n - 1) as nat);
    }
}

} // verus!
