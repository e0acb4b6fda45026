//! Configurations of simulated nodes.
use vstd::prelude::*;

use crate::endpoint::driver;
use crate::endpoint::driver::{EndpointConfig, KcpConfig};
use crate::machine::ChannelId;
use crate::relay;
use crate::relay::RelayConfig;
use crate::routing::{RouteConfig, RouteEdge, RouteGraph, RouteNode};

verus! {

/// An edge without hints.
pub fn route_edge(channel_id: ChannelId, next: u32) -> (edge: RouteEdge)
    ensures
        edge == (RouteEdge { channel_id, next, capacity_hint_kbps: 0, latency_hint_ms: 0 }),
{
    RouteEdge { channel_id, next, capacity_hint_kbps: 0, latency_hint_ms: 0 }
}

/// The graph whose nodes have these edges.
pub fn route_graph(nodes: Vec<Vec<RouteEdge>>) -> (graph: RouteGraph)
    ensures
        graph.nodes@.len() == nodes@.len(),
        forall|i: int| 0 <= i < nodes@.len() ==> (#[trigger] graph.nodes@[i]).edges@ == nodes@[i]@,
{
    let mut built: Vec<RouteNode> = Vec::new();
    let mut i: usize = 0;
    while i < nodes.len()
        invariant
            i <= nodes@.len(),
            built@.len() == i,
            forall|j: int| 0 <= j < i ==> (#[trigger] built@[j]).edges@ == nodes@[j]@,
        decreases nodes@.len() - i,
    {
        let mut edges: Vec<RouteEdge> = Vec::new();
        let mut j: usize = 0;
        while j < nodes[i].len()
            invariant
                i < nodes@.len(),
                j <= nodes@[i as int]@.len(),
                edges@ == nodes@[i as int]@.take(j as int),
            decreases nodes@[i as int]@.len() - j,
        {
            edges.push(nodes[i][j]);
            assert(edges@ =~= nodes@[i as int]@.take(j + 1));
            j = j + 1;
        }
        assert(edges@ =~= nodes@[i as int]@);
        built.push(RouteNode { edges });
        i = i + 1;
    }
    RouteGraph { nodes: built }
}

pub fn kcp_config() -> (config: KcpConfig)
    ensures
        config == (KcpConfig {
            send_window: 128,
            receive_window: 128,
            time_scale: 10,
            fast_resend: 32,
        }),
{
    KcpConfig::default()
}

pub fn endpoint_config(
    envelope_key: [u8; 16],
    message_key: [u8; 16],
    random_seed: [u8; 16],
    boot_time_ms: u64,
    local_channels: Vec<ChannelId>,
    route_graph: RouteGraph,
    kcp: KcpConfig,
) -> (config: EndpointConfig)
    ensures
        config == (EndpointConfig {
            envelope_key,
            message_key,
            random_seed,
            boot_time_ms,
            kcp,
            local_channels,
            route: RouteConfig {
                graph: route_graph,
                min_mtu: 1200,
                feedback_interval_ms: 1000,
                feedback_timeout_ms: 5000,
            },
            padding_reserve: 128,
            keepalive_interval_ms: 0,
        }),
{
    EndpointConfig {
        envelope_key,
        message_key,
        random_seed,
        boot_time_ms,
        kcp,
        local_channels,
        route: RouteConfig {
            graph: route_graph,
            min_mtu: 1200,
            feedback_interval_ms: 1000,
            feedback_timeout_ms: 5000,
        },
        padding_reserve: 128,
        keepalive_interval_ms: 0,
    }
}

pub fn relay_config(
    envelope_key: [u8; 16],
    random_seed: [u8; 16],
    boot_time_ms: u64,
    local_channels: Vec<ChannelId>,
) -> (config: RelayConfig)
    ensures
        config == (RelayConfig {
            envelope_key,
            random_seed,
            boot_time_ms,
            local_channels,
            local_min_mtu: 1200,
        }),
{
    RelayConfig { envelope_key, random_seed, boot_time_ms, local_channels, local_min_mtu: 1200 }
}

fn copy_channels(channels: &Vec<ChannelId>) -> (copy: Vec<ChannelId>)
    ensures
        copy@ == channels@,
{
    let mut copy: Vec<ChannelId> = Vec::new();
    let mut i: usize = 0;
    while i < channels.len()
        invariant
            i <= channels@.len(),
            copy@ == channels@.take(i as int),
        decreases channels@.len() - i,
    {
        copy.push(channels[i]);
        assert(copy@ =~= channels@.take(i + 1));
        i = i + 1;
    }
    assert(copy@ =~= channels@);
    copy
}

fn copy_edges(edges: &Vec<RouteEdge>) -> (copy: Vec<RouteEdge>)
    ensures
        copy@ == edges@,
{
    let mut copy: Vec<RouteEdge> = Vec::new();
    let mut i: usize = 0;
    while i < edges.len()
        invariant
            i <= edges@.len(),
            copy@ == edges@.take(i as int),
        decreases edges@.len() - i,
    {
        copy.push(edges[i]);
        assert(copy@ =~= edges@.take(i + 1));
        i = i + 1;
    }
    assert(copy@ =~= edges@);
    copy
}

fn copy_graph(graph: &RouteGraph) -> (copy: RouteGraph)
    ensures
        copy@ == graph@,
{
    let mut nodes: Vec<RouteNode> = Vec::new();
    let mut i: usize = 0;
    while i < graph.nodes.len()
        invariant
            i <= graph.nodes@.len(),
            nodes@.len() == i,
            forall|j: int| 0 <= j < i ==> (#[trigger] nodes@[j]).edges@ == graph.nodes@[j].edges@,
        decreases graph.nodes@.len() - i,
    {
        nodes.push(RouteNode { edges: copy_edges(&graph.nodes[i].edges) });
        i = i + 1;
    }
    let copy = RouteGraph { nodes };
    assert(copy@ =~= graph@);
    copy
}

/// A copy of the configuration, for another run of the endpoint.
pub fn copy_endpoint_config(config: &EndpointConfig) -> (copy: EndpointConfig)
    ensures
        driver::config_ok(copy) == driver::config_ok(*config),
        driver::endpoint_init(copy) == driver::endpoint_init(*config),
        copy.local_channels@ == config.local_channels@,
{
    EndpointConfig {
        envelope_key: config.envelope_key,
        message_key: config.message_key,
        random_seed: config.random_seed,
        boot_time_ms: config.boot_time_ms,
        kcp: config.kcp,
        route: RouteConfig {
            graph: copy_graph(&config.route.graph),
            min_mtu: config.route.min_mtu,
            feedback_interval_ms: config.route.feedback_interval_ms,
            feedback_timeout_ms: config.route.feedback_timeout_ms,
        },
        local_channels: copy_channels(&config.local_channels),
        padding_reserve: config.padding_reserve,
        keepalive_interval_ms: config.keepalive_interval_ms,
    }
}

/// A copy of the configuration, for another run of the relay.
pub fn copy_relay_config(config: &RelayConfig) -> (copy: RelayConfig)
    ensures
        relay::relay_init(copy) == relay::relay_init(*config),
{
    RelayConfig {
        envelope_key: config.envelope_key,
        random_seed: config.random_seed,
        boot_time_ms: config.boot_time_ms,
        local_channels: copy_channels(&config.local_channels),
        local_min_mtu: config.local_min_mtu,
    }
}

} // verus!
