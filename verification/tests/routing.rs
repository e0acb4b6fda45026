use raynet::routing::{
    is_ordered, serialization_time, Edge, RouteConfig, RouteEdge, RouteGraph, RouteNode,
    RoutePlanner,
};

fn graph_two_local_edges() -> RouteConfig {
    RouteConfig {
        graph: RouteGraph {
            nodes: vec![
                RouteNode {
                    edges: vec![
                        RouteEdge {
                            channel_id: 2,
                            next: 1,
                            capacity_hint_kbps: 0,
                            latency_hint_ms: 0,
                        },
                        RouteEdge {
                            channel_id: 1,
                            next: 1,
                            capacity_hint_kbps: 0,
                            latency_hint_ms: 0,
                        },
                    ],
                },
                RouteNode { edges: Vec::new() },
            ],
        },
        min_mtu: 1200,
        feedback_interval_ms: 1_000,
        feedback_timeout_ms: 5_000,
    }
}

fn edge(channel_id: u16, next: u32, latency_hint_ms: u32) -> RouteEdge {
    RouteEdge {
        channel_id,
        next,
        capacity_hint_kbps: 0,
        latency_hint_ms,
    }
}

#[test]
fn equal_routes_use_graph_order() {
    let config = graph_two_local_edges();
    let mut planner = RoutePlanner::new(&config);
    assert_eq!(planner.build_route_plan(0, 100, false), Some(vec![2]));
}

#[test]
fn failed_local_edge_enters_exponential_cooldown() {
    let config = graph_two_local_edges();
    let mut planner = RoutePlanner::new(&config);
    planner.note_local_send_failure(2, 0);
    assert_eq!(planner.build_route_plan(1, 100, true), Some(vec![1]));
    assert_eq!(planner.build_route_plan(49, 100, false), Some(vec![1]));
    assert_eq!(planner.build_route_plan(50, 100, false), Some(vec![1]));
}

#[test]
fn sampling_rotates_across_edges() {
    let config = graph_two_local_edges();
    let mut planner = RoutePlanner::new(&config);
    assert_eq!(planner.build_route_plan(0, 100, true), Some(vec![2]));
    assert_eq!(planner.build_route_plan(1, 100, true), Some(vec![1]));
}

#[test]
fn virtual_service_time_spreads_work() {
    let mut config = graph_two_local_edges();
    config.graph.nodes[0].edges[0].capacity_hint_kbps = 1_000;
    config.graph.nodes[0].edges[0].latency_hint_ms = 1;
    config.graph.nodes[0].edges[1].capacity_hint_kbps = 100_000;
    config.graph.nodes[0].edges[1].latency_hint_ms = 10;
    let mut planner = RoutePlanner::new(&config);
    assert_eq!(planner.build_route_plan(0, 1_000, false), Some(vec![2]));
    let mut used_fast = false;
    for _ in 0..20 {
        used_fast |= planner.build_route_plan(0, 1_000, false) == Some(vec![1]);
    }
    assert!(used_fast);
}

#[test]
fn both_local_edges_down_leave_no_route() {
    let config = graph_two_local_edges();
    let mut planner = RoutePlanner::new(&config);
    planner.note_local_send_failure(2, 0);
    planner.note_local_send_failure(1, 0);
    assert_eq!(planner.build_route_plan(49, 100, false), None);
    assert!(planner.build_route_plan(50, 100, false).is_some());
}

#[test]
fn the_shorter_way_is_taken() {
    let config = RouteConfig {
        graph: RouteGraph {
            nodes: vec![
                RouteNode {
                    edges: vec![edge(1, 1, 50), edge(2, 2, 10)],
                },
                RouteNode {
                    edges: vec![edge(3, 3, 50)],
                },
                RouteNode {
                    edges: vec![edge(4, 3, 10)],
                },
                RouteNode { edges: Vec::new() },
            ],
        },
        min_mtu: 1200,
        feedback_interval_ms: 1_000,
        feedback_timeout_ms: 5_000,
    };
    assert!(is_ordered(&config.graph));
    let mut planner = RoutePlanner::new(&config);
    assert_eq!(planner.build_route_plan(0, 100, false), Some(vec![2, 4]));
    assert!(planner.has_local_channel(1));
    assert!(!planner.has_local_channel(3));
}

#[test]
fn bad_feedback_moves_traffic_away() {
    let config = graph_two_local_edges();
    let mut planner = RoutePlanner::new(&config);
    for round in 1..20u64 {
        planner.note_feedback(&vec![2], round * 1000, false);
        planner.note_feedback(&vec![1], round * 1000, true);
    }
    assert_eq!(planner.build_route_plan(20_000, 100, false), Some(vec![1]));
}

#[test]
fn graphs_that_are_not_ordered() {
    let mut config = graph_two_local_edges();
    config.graph.nodes[0].edges[1].channel_id = 2;
    assert!(!is_ordered(&config.graph));
    let mut config = graph_two_local_edges();
    config.graph.nodes[0].edges[1].next = 2;
    assert!(!is_ordered(&config.graph));
    let mut config = graph_two_local_edges();
    config.graph.nodes.clear();
    assert!(!is_ordered(&config.graph));
}

#[test]
fn answer_ends_the_cooldown() {
    let config = graph_two_local_edges();
    let mut planner = RoutePlanner::new(&config);
    planner.note_local_send_failure(1, 10);
    planner.note_local_send_failure(2, 10);
    assert_eq!(planner.build_route_plan(20, 100, false), None);
    planner.note_feedback(&vec![1], 9, true);
    assert_eq!(planner.build_route_plan(20, 100, false), None);
    planner.note_feedback(&vec![1], 10, true);
    assert_eq!(planner.build_route_plan(20, 100, false), Some(vec![1]));
    planner.note_local_send_failure(1, 20);
    assert_eq!(planner.build_route_plan(59, 100, false), None);
    assert!(planner.build_route_plan(70, 100, false).is_some());
}

#[test]
fn refusing_channel_is_avoided_longer_each_time() {
    let config = graph_two_local_edges();
    let mut planner = RoutePlanner::new(&config);
    let mut now = 0;
    for delay in [50, 100, 200, 200] {
        planner.note_local_send_failure(2, now);
        for later in [now, now + delay - 1] {
            assert_eq!(planner.build_route_plan(later, 100, false), Some(vec![1]));
            assert_eq!(planner.build_route_plan(later, 100, true), Some(vec![1]));
        }
        now += delay;
        assert_eq!(planner.build_route_plan(now, 100, true), Some(vec![2]));
    }
}

#[test]
fn slow_edges_pay_for_their_losses() {
    let mut config = graph_two_local_edges();
    for edge in &mut config.graph.nodes[0].edges {
        edge.capacity_hint_kbps = 1;
        edge.latency_hint_ms = 1;
    }
    let mut planner = RoutePlanner::new(&config);
    assert_eq!(planner.build_route_plan(0, 1, false), Some(vec![2]));
    planner.note_local_send_failure(2, 0);
    // At 1 kbit/s a byte takes 8 ms; the loss of one half makes that more than 38 ms.
    for now in [100, 108, 116, 124] {
        assert_eq!(planner.build_route_plan(now, 1, false), Some(vec![1]));
    }
    assert_eq!(planner.build_route_plan(124, 1, false), Some(vec![1]));
    assert_eq!(planner.build_route_plan(124, 1, false), Some(vec![1]));
    assert_eq!(planner.build_route_plan(124, 1, false), Some(vec![1]));
    assert_eq!(planner.build_route_plan(124, 1, false), Some(vec![2]));
}

#[test]
fn refusals_rest_a_channel_longer_and_longer() {
    let config = graph_two_local_edges();
    let mut planner = RoutePlanner::new(&config);
    planner.note_local_send_failure(1, 0);
    let mut now = 0;
    for delay in [50, 100, 200, 200] {
        planner.note_local_send_failure(2, now);
        planner.note_local_send_failure(1, now);
        assert_eq!(planner.build_route_plan(now + delay - 1, 100, false), None);
        now += delay * 10;
    }
    planner.note_feedback(&vec![2], now, true);
    planner.note_local_send_failure(2, now);
    planner.note_local_send_failure(1, now);
    assert_eq!(planner.build_route_plan(now + 49, 100, false), None);
    assert_eq!(
        planner.build_route_plan(now + 50, 100, false),
        Some(vec![2])
    );
}

#[test]
fn serialization_takes_its_time() {
    let edge = Edge {
        channel_id: 1,
        next: 1,
        capacity_kbps: 50_000,
        latency_ms: 0,
        virtual_free_at: 0,
        loss: 0,
        cooldown_until: 0,
        retry_delay_ms: 50,
        last_sampled: None,
        last_observation_at: None,
    };
    assert_eq!(serialization_time(&edge, 100), 1049);
    assert_eq!(serialization_time(&edge, 0), 0);
    assert_eq!(serialization_time(&edge, 101), 1060);
    let lossy = Edge {
        loss: 65535,
        ..edge
    };
    assert_eq!(serialization_time(&lossy, 100), 16_778);
    let slow = Edge {
        capacity_kbps: 1,
        ..edge
    };
    assert_eq!(serialization_time(&slow, 100), 800 * 65536);
    let half = Edge {
        loss: 32768,
        capacity_kbps: 1,
        ..edge
    };
    assert!(serialization_time(&half, 100) > serialization_time(&slow, 100));
    assert_eq!(serialization_time(&slow, usize::MAX), u64::MAX);
}
