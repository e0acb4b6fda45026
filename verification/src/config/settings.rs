//! What a configuration file and the command line say of a node.
use vstd::prelude::*;

use crate::config::route::RouteEdgeConfig;
use crate::config::tuning::{CoreFileConfig, KcpFileConfig, RouteFileConfig};
use crate::crypto;
use crate::machine::ChannelId;
use crate::octets;
use crate::routing::{RouteEdge, RouteGraph, RouteNode};

verus! {

/// The address that an endpoint listens on where none is given.
pub const DEFAULT_LISTEN: &'static str = "[::0]:8443";

/// The content of a configuration file.
#[derive(Debug, Clone)]
pub struct FileConfig {
    pub endpoint: Option<bool>,
    pub listen: Option<String>,
    pub relay_key: Option<String>,
    pub endpoint_key: Option<String>,
    pub core: CoreFileConfig,
    pub route: Option<Vec<RouteEdgeConfig>>,
    pub channels: Vec<ChannelConfig>,
}

impl Default for FileConfig {
    fn default() -> (config: Self)
        ensures
            config.endpoint is None,
            config.listen is None,
            config.relay_key is None,
            config.endpoint_key is None,
            config.core == (CoreFileConfig {
                local_min_mtu: None,
                padding_reserve: None,
                keepalive_interval_ms: None,
                kcp: KcpFileConfig {
                    send_window: None,
                    receive_window: None,
                    time_scale: None,
                    fast_resend: None,
                },
                route: RouteFileConfig {
                    min_mtu: None,
                    feedback_interval_ms: None,
                    feedback_timeout_ms: None,
                },
            }),
            config.route is None,
            config.channels@.len() == 0,
    {
        Self {
            endpoint: None,
            listen: None,
            relay_key: None,
            endpoint_key: None,
            core: CoreFileConfig::default(),
            route: None,
            channels: Vec::new(),
        }
    }
}

/// A UDP channel: it sends or receives, and it knows the addresses of the other side or
/// learns them.
#[derive(Debug, Clone)]
pub enum ChannelConfig {
    Tx { id: ChannelId, bind: HostPorts, destination: HostPorts },
    Rx { id: ChannelId, bind: HostPorts },
    RevTx { id: ChannelId, bind: HostPorts },
    RevRx { id: ChannelId, bind: HostPorts, destination: HostPorts },
}

/// A host and some of its ports.
#[derive(Debug, Clone)]
pub struct HostPorts {
    pub host: String,
    pub ports: Vec<u16>,
}

/// What the command line says of a node.
#[derive(Debug, Clone)]
pub struct CliConfig {
    pub endpoint: bool,
    pub listen: Option<String>,
    pub relay_key: Option<String>,
    pub endpoint_key: Option<String>,
}

/// What a node is.
#[derive(Debug, Clone)]
pub enum NodeRole {
    Relay,
    Endpoint { listen: String },
}

#[derive(Debug, Clone, Copy, PartialEq, Eq, Structural)]
pub enum SettingsError {
    MissingRelayKey,
    MissingEndpointKey,
}

/// The command line goes first, then the file.
pub open spec fn first_of<T>(cli: Option<T>, file: Option<T>) -> Option<T> {
    match cli {
        Some(value) => Some(value),
        None => file,
    }
}

pub(crate) fn first_given(cli: &Option<String>, file: &Option<String>) -> (given: Option<String>)
    ensures
        given == first_of(*cli, *file),
{
    match cli {
        Some(value) => Some(value.clone()),
        None => copy_option(file),
    }
}

/// Whether the node is an endpoint.
pub open spec fn is_endpoint(cli: CliConfig, file: FileConfig) -> bool {
    cli.endpoint || file.endpoint == Some(true)
}

/// The role of a node: an endpoint listens on the address that is given, or else on the
/// default one.
pub fn node_role(cli: &CliConfig, file: &FileConfig) -> (role: NodeRole)
    ensures
        match role {
            NodeRole::Relay => !is_endpoint(*cli, *file),
            NodeRole::Endpoint { listen } => {
                &&& is_endpoint(*cli, *file)
                &&& match first_of(cli.listen, file.listen) {
                    Some(given) => listen == given,
                    None => listen@ == DEFAULT_LISTEN@,
                }
            },
        },
{
    let endpoint: bool = cli.endpoint || match file.endpoint {
        Some(endpoint) => endpoint,
        None => false,
    };
    if !endpoint {
        return NodeRole::Relay;
    }
    let listen = match first_given(&cli.listen, &file.listen) {
        Some(listen) => listen,
        None => DEFAULT_LISTEN.to_owned(),
    };
    NodeRole::Endpoint { listen }
}

/// The key of the relays, which every node needs.
pub fn relay_key(cli: &CliConfig, file: &FileConfig) -> (key: Result<String, SettingsError>)
    ensures
        key == match first_of(cli.relay_key, file.relay_key) {
            Some(key) => Ok::<String, SettingsError>(key),
            None => Err(SettingsError::MissingRelayKey),
        },
{
    match first_given(&cli.relay_key, &file.relay_key) {
        Some(key) => Ok(key),
        None => Err(SettingsError::MissingRelayKey),
    }
}

/// The key of the endpoints, which an endpoint needs too.
pub fn endpoint_key(cli: &CliConfig, file: &FileConfig) -> (key: Result<String, SettingsError>)
    ensures
        key == match first_of(cli.endpoint_key, file.endpoint_key) {
            Some(key) => Ok::<String, SettingsError>(key),
            None => Err(SettingsError::MissingEndpointKey),
        },
{
    match first_given(&cli.endpoint_key, &file.endpoint_key) {
        Some(key) => Ok(key),
        None => Err(SettingsError::MissingEndpointKey),
    }
}

fn copy_option(value: &Option<String>) -> (copy: Option<String>)
    ensures
        copy == *value,
{
    match value {
        Some(value) => Some(value.clone()),
        None => None,
    }
}

// ---------------------------------------------------------------------------
// Keys
// ---------------------------------------------------------------------------

/// The contexts that keep keys for different purposes apart.
pub const CHANNEL_KEY_CONTEXT: &'static str = "RayNet channel PSK v1";

pub const ENVELOPE_KEY_CONTEXT: &'static str = "RayNet envelope PSK v1";

pub const MESSAGE_KEY_CONTEXT: &'static str = "RayNet endpoint PSK v1";

/// The key that authenticates probes between the ends of a channel.
pub fn channel_key(relay_key: &String) -> (key: [u8; 32])
    ensures
        key@ == crypto::blake3_derived(
            CHANNEL_KEY_CONTEXT@,
            vstd::utf8::encode_utf8(relay_key@),
        ),
{
    crypto::derive_key(CHANNEL_KEY_CONTEXT, relay_key.as_str().as_bytes())
}

/// The key of all envelopes.
pub fn envelope_key(relay_key: &String) -> (key: [u8; 16])
    ensures
        key@ == crypto::blake3_derived(
            ENVELOPE_KEY_CONTEXT@,
            vstd::utf8::encode_utf8(relay_key@),
        ).take(16),
{
    let derived = crypto::derive_key(ENVELOPE_KEY_CONTEXT, relay_key.as_str().as_bytes());
    octets::first16(&derived)
}

/// The key of the messages between endpoints.
pub fn message_key(endpoint_key: &String) -> (key: [u8; 16])
    ensures
        key@ == crypto::blake3_derived(
            MESSAGE_KEY_CONTEXT@,
            vstd::utf8::encode_utf8(endpoint_key@),
        ).take(16),
{
    let derived = crypto::derive_key(MESSAGE_KEY_CONTEXT, endpoint_key.as_str().as_bytes());
    octets::first16(&derived)
}

// ---------------------------------------------------------------------------
// Routes
// ---------------------------------------------------------------------------

/// The edges of the default route: every channel leads to the destination.
pub open spec fn direct_edges(local_channels: Seq<ChannelId>) -> Seq<RouteEdge> {
    Seq::new(
        local_channels.len(),
        |i: int|
            RouteEdge {
                channel_id: local_channels[i],
                next: 1,
                capacity_hint_kbps: 0,
                latency_hint_ms: 0,
            },
    )
}

/// All edges of the first node are channels of this node.
pub open spec fn starts_locally(
    local_channels: Seq<ChannelId>,
    g: Seq<Seq<RouteEdge>>,
) -> bool {
    g.len() > 0 && forall|k: int|
        0 <= k < g[0].len() ==> local_channels.contains((#[trigger] g[0][k]).channel_id)
}

fn contains_channel(channels: &Vec<ChannelId>, channel_id: ChannelId) -> (yes: bool)
    ensures
        yes == channels@.contains(channel_id),
{
    let mut i: usize = 0;
    while i < channels.len()
        invariant
            i <= channels@.len(),
            forall|j: int| 0 <= j < i ==> channels@[j] != channel_id,
        decreases channels@.len() - i,
    {
        if channels[i] == channel_id {
            return true;
        }
        i = i + 1;
    }
    false
}

/// The graph that an endpoint routes on: the configured one, or the channels of the node side
/// by side. A configured graph that starts with a channel of another node is refused.
pub fn route_graph(
    local_channels: &Vec<ChannelId>,
    route: Option<RouteGraph>,
) -> (graph: Option<RouteGraph>)
    ensures
        match route {
            Some(route) => if starts_locally(local_channels@, route@) {
                graph == Some(route)
            } else {
                graph is None
            },
            None => graph is Some && graph->0@ == seq![
                direct_edges(local_channels@),
                Seq::<RouteEdge>::empty(),
            ],
        },
{
    match route {
        None => {
            let mut edges: Vec<RouteEdge> = Vec::new();
            let mut i: usize = 0;
            while i < local_channels.len()
                invariant
                    i <= local_channels@.len(),
                    edges@ == direct_edges(local_channels@).take(i as int),
                decreases local_channels@.len() - i,
            {
                edges.push(
                    RouteEdge {
                        channel_id: local_channels[i],
                        next: 1,
                        capacity_hint_kbps: 0,
                        latency_hint_ms: 0,
                    },
                );
                assert(edges@ =~= direct_edges(local_channels@).take(i + 1));
                i = i + 1;
            }
            assert(edges@ =~= direct_edges(local_channels@));
            let last: Vec<RouteEdge> = Vec::new();
            let mut nodes: Vec<RouteNode> = Vec::new();
            nodes.push(RouteNode { edges });
            nodes.push(RouteNode { edges: last });
            let graph = RouteGraph { nodes };
            assert(last@ =~= Seq::empty());
            assert(graph@ =~= seq![direct_edges(local_channels@), Seq::<RouteEdge>::empty()]);
            Some(graph)
        },
        Some(graph) => {
            if graph.nodes.len() == 0 {
                return None;
            }
            let edges = &graph.nodes[0].edges;
            assert(edges@ == graph@[0]);
            let mut k: usize = 0;
            while k < edges.len()
                invariant
                    k <= edges@.len(),
                    edges@ == graph@[0],
                    graph@.len() > 0,
                    route == Some(graph),
                    forall|j: int|
                        0 <= j < k ==> local_channels@.contains((#[trigger] edges@[j]).channel_id),
                decreases edges@.len() - k,
            {
                if !contains_channel(local_channels, edges[k].channel_id) {
                    assert(!local_channels@.contains(graph@[0][k as int].channel_id));
                    return None;
                }
                k = k + 1;
            }
            Some(graph)
        },
    }
}

} // verus!
