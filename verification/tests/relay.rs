use raynet::endpoint::driver::{EndpointConfig, EndpointCore, KcpConfig};
use raynet::machine::{CoreAction, CoreEvent};
use raynet::relay::{RelayConfig, RelayCore};
use raynet::routing::{RouteConfig, RouteEdge, RouteGraph, RouteNode};
use raynet::shell::channels::InboundTransportPacket;
use raynet::shell::runtime::{receive_batch, relay_batch};

fn edge(channel_id: u16, next: u32) -> RouteEdge {
    RouteEdge {
        channel_id,
        next,
        capacity_hint_kbps: 0,
        latency_hint_ms: 0,
    }
}

fn take_send(actions: &mut Vec<CoreAction>) -> (u16, Vec<u8>) {
    let CoreAction::SendTransportPacket { channel_id, bytes } = actions.remove(0) else {
        panic!("expected transport packet");
    };
    (channel_id, bytes)
}

fn packet_for_relay(next_channel: u16) -> Vec<u8> {
    packet_of(3, 0, next_channel)
}

fn packet_of(seed: u8, elapsed_ms: u64, next_channel: u16) -> Vec<u8> {
    let mut sender = EndpointCore::new(EndpointConfig {
        envelope_key: [1; 16],
        message_key: [2; 16],
        random_seed: [seed; 16],
        boot_time_ms: 0,
        kcp: KcpConfig::default(),
        route: RouteConfig {
            graph: RouteGraph {
                nodes: vec![
                    RouteNode {
                        edges: vec![edge(10, 1)],
                    },
                    RouteNode {
                        edges: vec![edge(next_channel, 2)],
                    },
                    RouteNode { edges: Vec::new() },
                ],
            },
            min_mtu: 1200,
            feedback_interval_ms: 1_000,
            feedback_timeout_ms: 5_000,
        },
        local_channels: vec![10],
        padding_reserve: 128,
        keepalive_interval_ms: 0,
    });
    let mut actions = Vec::new();
    sender.handle_event(elapsed_ms, CoreEvent::SessionOpen, &mut actions);
    take_send(&mut actions).1
}

fn relay() -> RelayCore {
    RelayCore::new(RelayConfig {
        envelope_key: [1; 16],
        random_seed: [4; 16],
        boot_time_ms: 0,
        local_channels: vec![20],
        local_min_mtu: 1200,
    })
}

#[test]
fn forwards_once_and_drops_a_replay() {
    let bytes = packet_for_relay(20);
    let mut relay = relay();
    let mut actions = Vec::new();
    relay.handle_event(
        0,
        CoreEvent::TransportPacketReceived {
            channel_id: 1,
            bytes: bytes.clone(),
        },
        &mut actions,
    );
    let CoreAction::SendTransportPacket {
        channel_id,
        bytes: forwarded,
    } = &actions[0]
    else {
        panic!("expected forwarded packet");
    };
    assert_eq!(*channel_id, 20);
    assert_ne!(forwarded, &bytes);

    actions.clear();
    relay.handle_event(
        0,
        CoreEvent::TransportPacketReceived {
            channel_id: 1,
            bytes,
        },
        &mut actions,
    );
    assert!(actions.is_empty());
    assert_eq!(relay.metrics().replay_drops, 1);
}

#[test]
fn drops_an_unknown_outbound_channel() {
    let mut relay = relay();
    let mut actions = Vec::new();
    relay.handle_event(
        0,
        CoreEvent::TransportPacketReceived {
            channel_id: 1,
            bytes: packet_for_relay(21),
        },
        &mut actions,
    );
    assert!(actions.is_empty());
    assert_eq!(relay.metrics().packets_dropped, 1);
}

#[test]
fn an_unauthentic_packet_leaves_no_trace_at_a_relay() {
    let mut bytes = packet_for_relay(20);
    let last = bytes.len() - 1;
    bytes[last] ^= 1;
    let mut relay = relay();
    let mut actions = Vec::new();
    relay.handle_event(
        0,
        CoreEvent::TransportPacketReceived {
            channel_id: 1,
            bytes,
        },
        &mut actions,
    );
    assert!(actions.is_empty());
    assert_eq!(relay.metrics().authentication_failures, 1);
    assert_eq!(relay.metrics().active_sequences, 0);
    assert_eq!(relay.next_deadline(0), u64::MAX);
}

#[test]
fn a_failed_send_is_counted() {
    let mut relay = relay();
    let mut actions = Vec::new();
    relay.handle_event(
        0,
        CoreEvent::TransportPacketSendFailed {
            channel_id: 20,
            bytes: vec![1, 2, 3],
        },
        &mut actions,
    );
    assert!(actions.is_empty());
}

#[test]
fn forwarded_packets_fit_the_channels() {
    let bytes = packet_for_relay(20);
    let payload_and_header = 32 + 16 + 16 + 1 + 28 + 1;
    for room in 1..=40u32 {
        let mut relay = RelayCore::new(RelayConfig {
            envelope_key: [1; 16],
            random_seed: [room as u8; 16],
            boot_time_ms: 0,
            local_channels: vec![20],
            local_min_mtu: payload_and_header + room,
        });
        let mut actions = Vec::new();
        relay.handle_event(
            0,
            CoreEvent::TransportPacketReceived {
                channel_id: 1,
                bytes: bytes.clone(),
            },
            &mut actions,
        );
        let (_, forwarded) = take_send(&mut actions);
        assert!(forwarded.len() > payload_and_header as usize);
        assert!(forwarded.len() <= (payload_and_header + room) as usize);
    }
}

#[test]
fn batches_are_taken_packet_by_packet() {
    let inbound = |bytes: &Vec<u8>| InboundTransportPacket {
        channel_id: 1,
        bytes: bytes.clone(),
    };
    let packet = packet_for_relay(20);
    let junk = vec![7u8; 60];
    let mut relay = relay();
    let sent = relay_batch(
        &mut relay,
        0,
        vec![inbound(&junk), inbound(&packet), inbound(&packet)],
    );
    assert_eq!(sent.len(), 1);
    assert_eq!(sent[0].channel_id, 20);
    assert_eq!(relay.metrics().packets_received, 3);
    assert_eq!(relay.metrics().replay_drops, 1);

    let mut receiver = EndpointCore::new(EndpointConfig {
        envelope_key: [1; 16],
        message_key: [2; 16],
        random_seed: [5; 16],
        boot_time_ms: 0,
        kcp: KcpConfig::default(),
        route: RouteConfig {
            graph: RouteGraph {
                nodes: vec![
                    RouteNode {
                        edges: vec![edge(10, 1)],
                    },
                    RouteNode { edges: Vec::new() },
                ],
            },
            min_mtu: 1200,
            feedback_interval_ms: 1_000,
            feedback_timeout_ms: 5_000,
        },
        local_channels: vec![10],
        padding_reserve: 128,
        keepalive_interval_ms: 0,
    });
    let mut actions = Vec::new();
    assert!(receive_batch(
        &mut receiver,
        0,
        vec![inbound(&junk), inbound(&sent[0].bytes)],
        &mut actions,
    ));
    assert!(actions
        .iter()
        .any(|action| matches!(action, CoreAction::OpenSession { .. })));
    assert_eq!(receiver.metrics().packets_received, 2);
}

#[test]
fn a_packet_is_not_forwarded_again_though_its_window_is_given_up() {
    let first = packet_for_relay(20);
    let second = packet_of(5, 700 * 1024, 20);
    let mut relay = relay();
    let mut receive = |elapsed_ms: u64, bytes: &Vec<u8>| {
        let mut actions = Vec::new();
        relay.handle_event(
            elapsed_ms,
            CoreEvent::TransportPacketReceived {
                channel_id: 1,
                bytes: bytes.clone(),
            },
            &mut actions,
        );
        (actions.len(), relay.metrics().active_sequences)
    };
    assert_eq!(receive(0, &first), (1, 1));
    assert_eq!(receive(645 * 1024, &first), (0, 1));
    assert_eq!(receive(700 * 1024, &second), (1, 1));
    assert_eq!(receive(700 * 1024, &first), (0, 1));
    assert_eq!(receive(700 * 1024, &second), (0, 1));
    assert_eq!(receive(1 << 34, &first), (0, 1));
}
