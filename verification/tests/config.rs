use raynet::config::route::{build_route, checked_route, RouteEdgeConfig};
use raynet::config::settings::{
    channel_key, endpoint_key, envelope_key, message_key, node_role, relay_key, route_graph, CliConfig, FileConfig,
    NodeRole, SettingsError,
};
use raynet::config::tuning::{CoreFileConfig, KcpFileConfig, RouteFileConfig};
use raynet::routing::RouteGraph;

fn edge(from: &str, to: &str, channel: u16) -> RouteEdgeConfig {
    RouteEdgeConfig {
        from: from.to_string(),
        to: to.to_string(),
        channel,
        capacity_hint_kbps: 7,
        latency_hint_ms: 9,
    }
}

fn shape(graph: &RouteGraph) -> Vec<Vec<(u16, u32)>> {
    graph
        .nodes
        .iter()
        .map(|node| {
            node.edges
                .iter()
                .map(|edge| (edge.channel_id, edge.next))
                .collect()
        })
        .collect()
}

#[test]
fn routes_are_sorted_from_source_to_destination() {
    let graph = build_route(vec![
        edge("b", "d", 3),
        edge("a", "b", 1),
        edge("a", "c", 2),
        edge("c", "d", 4),
    ]);
    let found = shape(&graph);
    assert_eq!(found.len(), 4);
    assert_eq!(found[0].len(), 2);
    assert!(found[3].is_empty());
    for (node, edges) in found.iter().enumerate() {
        for (_, next) in edges {
            assert!(*next as usize > node);
        }
    }
    assert_eq!(graph.nodes[0].edges[0].capacity_hint_kbps, 7);
    assert_eq!(graph.nodes[0].edges[0].latency_hint_ms, 9);
}

#[test]
fn a_chain_keeps_its_order() {
    let graph = build_route(vec![edge("a", "b", 1), edge("b", "c", 2)]);
    assert_eq!(
        shape(&graph),
        vec![vec![(1, 1)], vec![(2, 2)], Vec::<(u16, u32)>::new()]
    );
}

#[test]
fn routes_that_cannot_be_built() {
    // nothing
    assert!(checked_route(&vec![]).is_none());
    // a cycle
    assert!(checked_route(&vec![edge("a", "b", 1), edge("b", "a", 2)]).is_none());
    // two sources
    assert!(checked_route(&vec![edge("a", "c", 1), edge("b", "c", 2)]).is_none());
    // two destinations
    assert!(checked_route(&vec![edge("a", "b", 1), edge("a", "c", 2)]).is_none());
    assert!(checked_route(&vec![edge("a", "b", 1)]).is_some());
}

fn cli(endpoint: bool) -> CliConfig {
    CliConfig {
        endpoint,
        listen: None,
        relay_key: None,
        endpoint_key: None,
    }
}

#[test]
fn the_command_line_goes_first() {
    let mut file = FileConfig::default();
    assert_eq!(
        relay_key(&cli(false), &file),
        Err(SettingsError::MissingRelayKey)
    );
    file.relay_key = Some("file".to_string());
    assert_eq!(relay_key(&cli(false), &file), Ok("file".to_string()));
    assert!(matches!(node_role(&cli(false), &file), NodeRole::Relay));
    let mut line = cli(true);
    line.relay_key = Some("line".to_string());
    assert_eq!(relay_key(&line, &file), Ok("line".to_string()));
    assert_eq!(
        endpoint_key(&line, &file),
        Err(SettingsError::MissingEndpointKey)
    );
    file.endpoint_key = Some("secret".to_string());
    assert_eq!(endpoint_key(&line, &file), Ok("secret".to_string()));
    line.endpoint_key = Some("other".to_string());
    assert_eq!(endpoint_key(&line, &file), Ok("other".to_string()));
    match node_role(&line, &file) {
        NodeRole::Endpoint { listen } => assert_eq!(listen, "[::0]:8443"),
        NodeRole::Relay => panic!("an endpoint"),
    }
    file.endpoint = Some(true);
    file.listen = Some("here".to_string());
    match node_role(&cli(false), &file) {
        NodeRole::Endpoint { listen } => assert_eq!(listen, "here"),
        NodeRole::Relay => panic!("an endpoint"),
    }
}

#[test]
fn keys_are_derived_apart() {
    let psk = "key".to_string();
    assert_eq!(
        channel_key(&psk),
        blake3::derive_key("RayNet channel PSK v1", b"key")
    );
    assert_eq!(
        envelope_key(&psk),
        blake3::derive_key("RayNet envelope PSK v1", b"key")[..16]
    );
    assert_eq!(
        message_key(&psk),
        blake3::derive_key("RayNet endpoint PSK v1", b"key")[..16]
    );
}

#[test]
fn tuning_has_defaults() {
    let tuning = CoreFileConfig::default().endpoint_tuning();
    assert_eq!(tuning.padding_reserve, 128);
    assert_eq!(tuning.keepalive_interval_ms, 0);
    assert_eq!(tuning.route.min_mtu, 1400);
    assert_eq!(tuning.route.feedback_interval_ms, 1000);
    assert_eq!(tuning.route.feedback_timeout_ms, 5000);
    assert_eq!(tuning.kcp.send_window, 128);
    assert_eq!(CoreFileConfig::default().relay_tuning().local_min_mtu, 1400);
    let file = CoreFileConfig {
        local_min_mtu: Some(900),
        padding_reserve: Some(3),
        keepalive_interval_ms: Some(4),
        kcp: KcpFileConfig {
            send_window: Some(5),
            receive_window: Some(6),
            time_scale: Some(7),
            fast_resend: Some(8),
        },
        route: RouteFileConfig {
            min_mtu: Some(9),
            feedback_interval_ms: Some(10),
            feedback_timeout_ms: Some(11),
        },
    };
    assert_eq!(file.relay_tuning().local_min_mtu, 900);
    let tuning = file.endpoint_tuning();
    assert_eq!(tuning.kcp.receive_window, 6);
    assert_eq!(tuning.kcp.fast_resend, 8);
    let config = tuning.route_config(RouteGraph { nodes: vec![] });
    assert_eq!(config.min_mtu, 9);
    assert_eq!(config.feedback_timeout_ms, 11);
}

#[test]
fn the_default_route_uses_every_channel() {
    let graph = route_graph(&vec![4, 5], None).unwrap();
    assert_eq!(
        shape(&graph),
        vec![vec![(4, 1), (5, 1)], Vec::<(u16, u32)>::new()]
    );
    let own = build_route(vec![edge("a", "b", 4)]);
    assert!(route_graph(&vec![4, 5], Some(own.clone())).is_some());
    assert!(route_graph(&vec![5], Some(own)).is_none());
}

#[test]
fn nothing_is_set_by_default() {
    assert_eq!(FileConfig::default().core, CoreFileConfig::default());
    assert_eq!(
        FileConfig::default().core.kcp,
        KcpFileConfig {
            send_window: None,
            receive_window: None,
            time_scale: None,
            fast_resend: None,
        }
    );
}
