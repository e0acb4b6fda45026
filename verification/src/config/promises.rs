//! What a configuration promises: a route graph is what its edges say, and settings go before
//! defaults.
use vstd::prelude::*;

use crate::config::route;
use crate::config::route::NamedEdge;
use crate::config::settings;
use crate::config::settings::{CliConfig, FileConfig};
use crate::config::sorting;
use crate::config::tuning;
use crate::config::tuning::{KcpFileConfig, RouteFileConfig};
use crate::machine::ChannelId;
use crate::routing::RouteEdge;

verus! {

// ---------------------------------------------------------------------------
// Routes
// ---------------------------------------------------------------------------

/// The configured edges that leave the node `name`, in their order.
pub open spec fn leaving(edges: Seq<NamedEdge>, name: Seq<char>) -> Seq<NamedEdge> {
    edges.filter(|e: NamedEdge| e.from == name)
}

/// The edge of the graph is the configured one, in a graph whose nodes have these names.
pub open spec fn stands_for(names: Seq<Seq<char>>, edge: RouteEdge, named: NamedEdge) -> bool {
    &&& edge.channel_id == named.channel
    &&& edge.capacity_hint_kbps == named.capacity_hint_kbps
    &&& edge.latency_hint_ms == named.latency_hint_ms
    &&& edge.next < names.len()
    &&& names[edge.next as int] == named.to
}

proof fn lemma_leaving(edges: Seq<NamedEdge>, names: Seq<Seq<char>>, name: Seq<char>)
    ensures
        route::links_from(edges, names, name).len() == leaving(edges, name).len(),
        forall|k: int|
            0 <= k < leaving(edges, name).len() ==> #[trigger] route::links_from(
                edges,
                names,
                name,
            )[k] == route::link_of(names, leaving(edges, name)[k]),
    decreases edges.len(),
{
    reveal(Seq::filter);
    if edges.len() > 0 {
        lemma_leaving(edges.drop_last(), names, name);
    }
}

proof fn lemma_leaving_listed(edges: Seq<NamedEdge>, name: Seq<char>, k: int)
    requires
        0 <= k < leaving(edges, name).len(),
    ensures
        edges.contains(leaving(edges, name)[k]),
{
    reveal(Seq::filter);
    edges.lemma_filter_contains_rev(|e: NamedEdge| e.from == name, leaving(edges, name)[k]);
}

/// Every node of the route graph has a name, no two have the same, and all names of the
/// configuration occur. The edges of a node are those that the configuration gives it, in
/// their order, each with its channel and its hints, to the node that it names.
pub proof fn law_route_is_as_configured(edges: Seq<NamedEdge>) -> (names: Seq<Seq<char>>)
    requires
        route::buildable(edges),
    ensures
        names.len() == route::route_of(edges).len(),
        forall|p: int, q: int| 0 <= p < q < names.len() ==> names[p] != names[q],
        forall|i: int|
            0 <= i < edges.len() ==> names.contains((#[trigger] edges[i]).from) && names.contains(
                edges[i].to,
            ),
        forall|p: int|
            0 <= p < names.len() ==> (#[trigger] route::route_of(edges)[p]).len() == leaving(
                edges,
                names[p],
            ).len(),
        forall|p: int, k: int|
            0 <= p < names.len() && 0 <= k < route::route_of(edges)[p].len() ==> stands_for(
                names,
                #[trigger] route::route_of(edges)[p][k],
                leaving(edges, names[p])[k],
            ),
{
    let g = route::graph_of(edges);
    let old_names = route::names_of(edges);
    let order = sorting::topological_order(g);
    let r = route::route_of(edges);
    route::lemma_names(edges);
    route::lemma_graph_closed(edges);
    sorting::law_order_is_complete(g);
    sorting::law_order_is_topological(g);
    let names = Seq::new(order.len(), |p: int| old_names[order[p]]);
    assert forall|name: Seq<char>| old_names.contains(name) implies #[trigger] names.contains(
        name,
    ) by {
        let i = choose|i: int| 0 <= i < old_names.len() && old_names[i] == name;
        sorting::lemma_distinct_full(order, g.len() as int, i);
        let p = choose|p: int| 0 <= p < order.len() && order[p] == i;
        assert(names[p] == name);
    }
    assert forall|p: int| 0 <= p < names.len() implies (#[trigger] r[p]).len() == leaving(
        edges,
        names[p],
    ).len() by {
        lemma_leaving(edges, old_names, names[p]);
        assert(g[order[p]] == route::links_from(edges, old_names, names[p]));
    }
    assert forall|p: int, k: int|
        0 <= p < names.len() && 0 <= k < r[p].len() implies stands_for(
        names,
        #[trigger] r[p][k],
        leaving(edges, names[p])[k],
    ) by {
        let named = leaving(edges, names[p])[k];
        lemma_leaving(edges, old_names, names[p]);
        assert(g[order[p]] == route::links_from(edges, old_names, names[p]));
        assert(r[p].len() == g[order[p]].len());
        let e = g[order[p]][k];
        assert(e == route::link_of(old_names, named));
        route::lemma_route_edge(edges, p, k);
        lemma_leaving_listed(edges, names[p], k);
        let i = choose|i: int| 0 <= i < edges.len() && edges[i] == named;
        assert(old_names.contains(edges[i].to));
        let at = choose|at: int| 0 <= at < old_names.len() && old_names[at] == named.to;
        route::lemma_node_of(old_names, at);
        assert(e.next == at);
    }
    names
}

/// Where no route is configured, every channel of the node leads straight to the destination.
pub proof fn law_direct_edges(channels: Seq<ChannelId>, i: int)
    requires
        0 <= i < channels.len(),
    ensures
        settings::direct_edges(channels).len() == channels.len(),
        settings::direct_edges(channels)[i].channel_id == channels[i],
        settings::direct_edges(channels)[i].next == 1,
        settings::direct_edges(channels)[i].capacity_hint_kbps == 0,
        settings::direct_edges(channels)[i].latency_hint_ms == 0,
{
}

/// A route starts locally if it has nodes and the first one has no edge on a channel of
/// another node.
pub proof fn law_route_starts_locally(
    channels: Seq<ChannelId>,
    edges: Seq<RouteEdge>,
    edge: RouteEdge,
    rest: Seq<Seq<RouteEdge>>,
)
    ensures
        !settings::starts_locally(channels, Seq::empty()),
        settings::starts_locally(channels, seq![Seq::<RouteEdge>::empty()] + rest),
        settings::starts_locally(channels, seq![edges.push(edge)] + rest)
            <==> settings::starts_locally(channels, seq![edges] + rest) && channels.contains(
            edge.channel_id,
        ),
{
    let a = seq![edges.push(edge)] + rest;
    let b = seq![edges] + rest;
    assert(a[0] == edges.push(edge));
    assert(b[0] == edges);
    assert((seq![Seq::<RouteEdge>::empty()] + rest)[0] =~= Seq::empty());
    if settings::starts_locally(channels, a) {
        assert(a[0][edges.len() as int] == edge);
        assert forall|k: int| 0 <= k < b[0].len() implies channels.contains(
            (#[trigger] b[0][k]).channel_id,
        ) by {
            assert(a[0][k] == edges[k]);
        }
    }
    if settings::starts_locally(channels, b) && channels.contains(edge.channel_id) {
        assert forall|k: int| 0 <= k < a[0].len() implies channels.contains(
            (#[trigger] a[0][k]).channel_id,
        ) by {
            if k < edges.len() {
                assert(b[0][k] == edges[k]);
            }
        }
    }
}

// ---------------------------------------------------------------------------
// Settings
// ---------------------------------------------------------------------------

/// What the command line gives goes before what the file gives, and the file before nothing.
pub proof fn law_command_line_goes_first<T>(given: T, file: Option<T>)
    ensures
        settings::first_of(Some(given), file) == Some(given),
        settings::first_of(None, file) == file,
{
}

/// A node is an endpoint if the command line or the file says so, and else a relay.
pub proof fn law_endpoint_by_choice(cli: CliConfig, file: FileConfig)
    ensures
        settings::is_endpoint(cli, file) <==> cli.endpoint || file.endpoint is Some
            && file.endpoint->0,
{
}

/// Sessions have the windows, the time scale and the fast resend that are set. What is not
/// set is 128, 128, 10 and 32.
pub proof fn law_session_settings(config: KcpFileConfig)
    ensures
        ({
            let set = config.kcp_config();
            &&& config.send_window is Some ==> set.send_window == config.send_window->0
            &&& config.send_window is None ==> set.send_window == 128
            &&& config.receive_window is Some ==> set.receive_window == config.receive_window->0
            &&& config.receive_window is None ==> set.receive_window == 128
            &&& config.time_scale is Some ==> set.time_scale == config.time_scale->0
            &&& config.time_scale is None ==> set.time_scale == 10
            &&& config.fast_resend is Some ==> set.fast_resend == config.fast_resend->0
            &&& config.fast_resend is None ==> set.fast_resend == 32
        }),
{
}

/// Routes have the packet size and the feedback times that are set. What is not set is 1400
/// bytes, a second and five seconds.
pub proof fn law_route_settings(config: RouteFileConfig)
    ensures
        ({
            let set = config.route_timing();
            &&& config.min_mtu is Some ==> set.min_mtu == config.min_mtu->0
            &&& config.min_mtu is None ==> set.min_mtu == 1400
            &&& config.feedback_interval_ms is Some ==> set.feedback_interval_ms
                == config.feedback_interval_ms->0
            &&& config.feedback_interval_ms is None ==> set.feedback_interval_ms == 1000
            &&& config.feedback_timeout_ms is Some ==> set.feedback_timeout_ms
                == config.feedback_timeout_ms->0
            &&& config.feedback_timeout_ms is None ==> set.feedback_timeout_ms == 5000
        }),
{
}

/// A setting that is given is used, and the default is used where none is.
pub proof fn law_default_stands_in<T>(given: T, default: T)
    ensures
        tuning::or_default(Some(given), default) == given,
        tuning::or_default(None, default) == default,
        tuning::DEFAULT_PADDING_RESERVE == 128,
        tuning::DEFAULT_TRANSPORT_MTU == 1400,
{
}

/// Keys for different purposes are derived in different contexts, each with its own name.
pub proof fn law_key_contexts()
    ensures
        settings::CHANNEL_KEY_CONTEXT@ == "RayNet channel PSK v1"@,
        settings::ENVELOPE_KEY_CONTEXT@ == "RayNet envelope PSK v1"@,
        settings::MESSAGE_KEY_CONTEXT@ == "RayNet endpoint PSK v1"@,
        settings::CHANNEL_KEY_CONTEXT@ != settings::ENVELOPE_KEY_CONTEXT@,
        settings::CHANNEL_KEY_CONTEXT@ != settings::MESSAGE_KEY_CONTEXT@,
        settings::ENVELOPE_KEY_CONTEXT@ != settings::MESSAGE_KEY_CONTEXT@,
        settings::DEFAULT_LISTEN@ == "[::0]:8443"@,
{
    reveal_strlit("RayNet channel PSK v1");
    reveal_strlit("RayNet envelope PSK v1");
    reveal_strlit("RayNet endpoint PSK v1");
    assert(settings::CHANNEL_KEY_CONTEXT@[7] == 'c');
    assert(settings::ENVELOPE_KEY_CONTEXT@[8] == 'n' && settings::ENVELOPE_KEY_CONTEXT@[9] == 'v');
    assert(settings::MESSAGE_KEY_CONTEXT@[7] == 'e' && settings::MESSAGE_KEY_CONTEXT@[9] == 'd');
}

} // verus!
