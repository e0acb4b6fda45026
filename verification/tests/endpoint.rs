use raynet::endpoint::driver::{is_usable, EndpointConfig, EndpointCore, KcpConfig};
use raynet::machine::{ChannelId, CloseReason, CoreAction, CoreEvent, CoreEventResult};
use raynet::routing::{RouteConfig, RouteEdge, RouteGraph, RouteNode};

fn edge(channel_id: ChannelId, next: u32) -> RouteEdge {
    RouteEdge {
        channel_id,
        next,
        capacity_hint_kbps: 0,
        latency_hint_ms: 0,
    }
}

fn endpoint_config(
    seed: u8,
    local_channels: Vec<ChannelId>,
    nodes: Vec<RouteNode>,
) -> EndpointConfig {
    EndpointConfig {
        envelope_key: [1; 16],
        message_key: [2; 16],
        random_seed: [seed; 16],
        boot_time_ms: 0,
        kcp: KcpConfig::default(),
        route: RouteConfig {
            graph: RouteGraph { nodes },
            min_mtu: 1200,
            feedback_interval_ms: 1_000,
            feedback_timeout_ms: 5_000,
        },
        local_channels,
        padding_reserve: 128,
        keepalive_interval_ms: 0,
    }
}

fn take_send(actions: &mut Vec<CoreAction>) -> (ChannelId, Vec<u8>) {
    let CoreAction::SendTransportPacket { channel_id, bytes } = actions.remove(0) else {
        panic!("expected transport packet");
    };
    (channel_id, bytes)
}

fn direct_config(seed: u8) -> EndpointConfig {
    endpoint_config(
        seed,
        vec![10],
        vec![
            RouteNode {
                edges: vec![edge(10, 1)],
            },
            RouteNode { edges: Vec::new() },
        ],
    )
}

fn direct_endpoint(seed: u8) -> EndpointCore {
    EndpointCore::new(direct_config(seed))
}

fn deliver_sends(
    target: &mut EndpointCore,
    source_actions: &mut Vec<CoreAction>,
    target_actions: &mut Vec<CoreAction>,
    elapsed_ms: u64,
) {
    let actions = std::mem::take(source_actions);
    for action in actions {
        match action {
            CoreAction::SendTransportPacket { bytes, .. } => {
                target.handle_event(
                    elapsed_ms,
                    CoreEvent::TransportPacketReceived {
                        channel_id: 10,
                        bytes,
                    },
                    target_actions,
                );
            }
            action => source_actions.push(action),
        }
    }
}

fn open(core: &mut EndpointCore, elapsed_ms: u64, actions: &mut Vec<CoreAction>) -> u64 {
    let CoreEventResult::SessionCreated { conv_id } =
        core.handle_event(elapsed_ms, CoreEvent::SessionOpen, actions)
    else {
        panic!("expected session");
    };
    conv_id
}

#[test]
fn next_deadline_is_max_when_idle() {
    assert_eq!(direct_endpoint(3).next_deadline(0), u64::MAX);
}

#[test]
fn session_write_blocked_is_atomic() {
    let mut config = direct_config(3);
    config.kcp.send_window = 1;
    let mut endpoint = EndpointCore::new(config);
    let mut actions = Vec::new();
    let CoreEventResult::SessionCreated { conv_id } =
        endpoint.handle_event(0, CoreEvent::SessionOpen, &mut actions)
    else {
        panic!("expected session");
    };

    let mut blocked_actions = Vec::new();
    let result = endpoint.handle_event(
        0,
        CoreEvent::SessionWrite {
            conv_id,
            bytes: vec![0; 1],
        },
        &mut blocked_actions,
    );
    assert!(matches!(result, CoreEventResult::SessionWriteBlocked));
    assert!(blocked_actions.is_empty());
}

#[test]
fn reroutes_a_failed_transport_packet() {
    let mut endpoint = EndpointCore::new(endpoint_config(
        3,
        vec![10, 20],
        vec![
            RouteNode {
                edges: vec![edge(10, 1), edge(20, 1)],
            },
            RouteNode { edges: Vec::new() },
        ],
    ));
    let mut actions = Vec::new();
    endpoint.handle_event(0, CoreEvent::SessionOpen, &mut actions);
    let (failed_channel, bytes) = take_send(&mut actions);

    endpoint.handle_event(
        0,
        CoreEvent::TransportPacketSendFailed {
            channel_id: failed_channel,
            bytes,
        },
        &mut actions,
    );
    let (retry_channel, _) = take_send(&mut actions);
    assert_ne!(retry_channel, failed_channel);
}

#[test]
fn endpoint_authentication_failure_creates_no_state() {
    let mut sender = direct_endpoint(3);
    let mut receiver_config = direct_config(4);
    receiver_config.message_key = [9; 16];
    let mut receiver = EndpointCore::new(receiver_config);

    let mut actions = Vec::new();
    sender.handle_event(0, CoreEvent::SessionOpen, &mut actions);
    let (_, bytes) = take_send(&mut actions);
    receiver.handle_event(
        0,
        CoreEvent::TransportPacketReceived {
            channel_id: 10,
            bytes,
        },
        &mut actions,
    );
    assert_eq!(receiver.metrics().authentication_failures, 1);
    assert_eq!(receiver.metrics().active_sequences, 0);
}

#[test]
fn open_and_write_cross_the_public_state_machine_boundary() {
    let mut left = direct_endpoint(3);
    let mut right = direct_endpoint(4);
    let mut left_actions = Vec::new();
    let mut right_actions = Vec::new();
    let CoreEventResult::SessionCreated { conv_id } =
        left.handle_event(0, CoreEvent::SessionOpen, &mut left_actions)
    else {
        panic!("expected session");
    };

    deliver_sends(&mut right, &mut left_actions, &mut right_actions, 1);
    deliver_sends(&mut left, &mut right_actions, &mut left_actions, 2);
    assert!(
        right_actions.iter().any(
            |action| matches!(action, CoreAction::OpenSession { conv_id: id } if *id == conv_id)
        )
    );

    left.handle_event(
        3,
        CoreEvent::SessionWrite {
            conv_id,
            bytes: b"payload".to_vec(),
        },
        &mut left_actions,
    );
    deliver_sends(&mut right, &mut left_actions, &mut right_actions, 4);
    assert!(right_actions.iter().any(|action| matches!(
        action,
        CoreAction::WriteSession { conv_id: id, bytes } if *id == conv_id && bytes == b"payload"
    )));

    left.handle_event(
        5,
        CoreEvent::SessionWrite {
            conv_id,
            bytes: Vec::new(),
        },
        &mut left_actions,
    );
    deliver_sends(&mut right, &mut left_actions, &mut right_actions, 6);
    assert!(right_actions.iter().any(|action| matches!(
        action,
        CoreAction::WriteSession { conv_id: id, bytes } if *id == conv_id && bytes.is_empty()
    )));
}

#[test]
fn malformed_transport_packet_creates_no_state() {
    let mut endpoint = direct_endpoint(3);
    endpoint.handle_event(
        0,
        CoreEvent::TransportPacketReceived {
            channel_id: 10,
            bytes: vec![0; 1],
        },
        &mut Vec::new(),
    );
    assert_eq!(endpoint.metrics().active_sequences, 0);
    assert_eq!(endpoint.metrics().packets_dropped, 1);
}

#[test]
fn session_ids_count_up_from_the_seed() {
    let mut endpoint = direct_endpoint(3);
    let mut actions = Vec::new();
    let first = open(&mut endpoint, 0, &mut actions);
    let second = open(&mut endpoint, 0, &mut actions);
    assert_eq!(second, first.wrapping_add(1));
    assert_eq!(endpoint.metrics().active_sessions, 2);
    let mut twin = direct_endpoint(3);
    assert_eq!(open(&mut twin, 0, &mut actions), first);
    let mut other = direct_endpoint(4);
    assert_ne!(open(&mut other, 0, &mut actions), first);
}

#[test]
fn a_replayed_packet_leaves_no_trace() {
    let mut left = direct_endpoint(3);
    let mut right = direct_endpoint(4);
    let mut actions = Vec::new();
    open(&mut left, 0, &mut actions);
    let (_, bytes) = take_send(&mut actions);
    let mut received = Vec::new();
    let event = CoreEvent::TransportPacketReceived {
        channel_id: 10,
        bytes,
    };
    right.handle_event(1, event.clone(), &mut received);
    assert_eq!(right.metrics().active_sessions, 1);
    let mut again = Vec::new();
    right.handle_event(2, event, &mut again);
    assert!(again.is_empty());
    assert_eq!(right.metrics().active_sessions, 1);
    assert_eq!(right.metrics().replay_drops, 1);
}

#[test]
fn packets_carry_growing_numbers_and_fit_the_mtu() {
    let mut left = direct_endpoint(3);
    let mut actions = Vec::new();
    let conv_id = open(&mut left, 0, &mut actions);
    for round in 1..20u64 {
        left.handle_event(
            round,
            CoreEvent::SessionWrite {
                conv_id,
                bytes: vec![round as u8; 3000],
            },
            &mut actions,
        );
    }
    let mut packets = 0;
    for action in &actions {
        if let CoreAction::SendTransportPacket { channel_id, bytes } = action {
            assert_eq!(*channel_id, 10);
            assert!(bytes.len() <= 1200);
            packets += 1;
        }
    }
    assert!(packets > 20);
}

#[test]
fn writes_arrive_in_order_and_whole() {
    let mut left = direct_endpoint(5);
    let mut right = direct_endpoint(6);
    let mut left_actions = Vec::new();
    let mut right_actions = Vec::new();
    let conv_id = open(&mut left, 0, &mut left_actions);
    let mut expected = Vec::new();
    let mut got = Vec::new();
    for round in 0..6u8 {
        let bytes: Vec<u8> = (0..2500u32).map(|i| (i as u8).wrapping_add(round)).collect();
        expected.push(bytes.clone());
        let result = left.handle_event(
            round as u64,
            CoreEvent::SessionWrite { conv_id, bytes },
            &mut left_actions,
        );
        assert_eq!(result, CoreEventResult::Handled);
        for turn in 0..4u64 {
            deliver_sends(&mut right, &mut left_actions, &mut right_actions, round as u64 + turn);
            deliver_sends(&mut left, &mut right_actions, &mut left_actions, round as u64 + turn);
        }
        for action in std::mem::take(&mut right_actions) {
            if let CoreAction::WriteSession { conv_id: id, bytes } = action {
                assert_eq!(id, conv_id);
                got.push(bytes);
            }
        }
    }
    assert_eq!(got, expected);
}

#[test]
fn a_closed_session_is_reported_once_and_refuses_writes() {
    let mut left = direct_endpoint(7);
    let mut right = direct_endpoint(8);
    let mut left_actions = Vec::new();
    let mut right_actions = Vec::new();
    let conv_id = open(&mut left, 0, &mut left_actions);
    deliver_sends(&mut right, &mut left_actions, &mut right_actions, 1);
    deliver_sends(&mut left, &mut right_actions, &mut left_actions, 2);
    left.handle_event(
        3,
        CoreEvent::SessionClose {
            conv_id,
            reason: CloseReason::LocalClosed,
        },
        &mut left_actions,
    );
    let mut now = 4;
    while left.metrics().active_sessions + right.metrics().active_sessions > 0 && now < 400_000 {
        deliver_sends(&mut right, &mut left_actions, &mut right_actions, now);
        deliver_sends(&mut left, &mut right_actions, &mut left_actions, now);
        left.poll(now, &mut left_actions);
        right.poll(now, &mut right_actions);
        now += 10;
    }
    assert_eq!(left.metrics().active_sessions, 0);
    assert_eq!(right.metrics().active_sessions, 0);
    let closes = right_actions
        .iter()
        .filter(|action| matches!(action, CoreAction::CloseSession { .. }))
        .count();
    assert_eq!(closes, 1);
    let mut after = Vec::new();
    let result = left.try_handle_event(
        now,
        CoreEvent::SessionWrite {
            conv_id,
            bytes: vec![1],
        },
        &mut after,
    );
    assert_eq!(result, None);
    assert!(after.is_empty());
}

#[test]
fn texts_do_not_show_in_packets() {
    let mut left = direct_endpoint(3);
    let mut actions = Vec::new();
    let conv_id = open(&mut left, 0, &mut actions);
    actions.clear();
    left.handle_event(
        1,
        CoreEvent::SessionWrite {
            conv_id,
            bytes: b"a text that must not show".to_vec(),
        },
        &mut actions,
    );
    let (_, bytes) = take_send(&mut actions);
    let needle = b"a text that must not show";
    assert!(!bytes.windows(needle.len()).any(|window| window == needle));
}

#[test]
fn unusable_configurations_are_told_apart() {
    assert!(is_usable(&direct_config(1)));
    let mut config = direct_config(1);
    config.padding_reserve = 0;
    assert!(!is_usable(&config));
    let mut config = direct_config(1);
    config.route.feedback_interval_ms = 0;
    assert!(!is_usable(&config));
    let mut config = direct_config(1);
    config.route.min_mtu = 100;
    assert!(!is_usable(&config));
    let mut config = direct_config(1);
    config.route.graph.nodes[0].edges[0].next = 0;
    assert!(!is_usable(&config));
    let mut config = direct_config(1);
    config.route.graph.nodes[0].edges.push(edge(10, 1));
    assert!(!is_usable(&config));
    let mut config = direct_config(1);
    config.kcp.receive_window = 1;
    assert!(!is_usable(&config));
}

#[test]
fn events_that_cannot_be_handled_are_left_alone() {
    let mut endpoint = direct_endpoint(3);
    let mut actions = Vec::new();
    let conv_id = open(&mut endpoint, 0, &mut actions);
    actions.clear();
    let event = CoreEvent::SessionWrite {
        conv_id: conv_id.wrapping_add(1),
        bytes: vec![0; 10],
    };
    assert!(!endpoint.accepts_event(0, &event));
    assert_eq!(endpoint.try_handle_event(0, event, &mut actions), None);
    assert!(actions.is_empty());
    let event = CoreEvent::TransportPacketSendFailed {
        channel_id: 99,
        bytes: vec![],
    };
    assert_eq!(endpoint.try_handle_event(0, event, &mut actions), None);
    let event = CoreEvent::SessionWrite {
        conv_id,
        bytes: vec![0; 10],
    };
    assert_eq!(
        endpoint.try_handle_event(0, event, &mut actions),
        Some(CoreEventResult::Handled)
    );
}

#[test]
fn a_packet_is_not_taken_again_though_its_window_is_given_up() {
    let mut right = direct_endpoint(4);
    let mut packets = Vec::new();
    for (seed, elapsed_ms) in [(3, 0), (5, 400 * 1024), (6, 700 * 1024)] {
        let mut left = direct_endpoint(seed);
        let mut actions = Vec::new();
        open(&mut left, elapsed_ms, &mut actions);
        let (_, bytes) = take_send(&mut actions);
        let event = CoreEvent::TransportPacketReceived {
            channel_id: 10,
            bytes,
        };
        let mut received = Vec::new();
        right.handle_event(elapsed_ms, event.clone(), &mut received);
        assert!(!received.is_empty());
        packets.push(event);
    }
    assert_eq!(right.metrics().active_sequences, 3);
    right.poll(700 * 1024, &mut Vec::new());
    assert_eq!(right.metrics().active_sequences, 2);
    for event in packets {
        let mut again = Vec::new();
        right.handle_event(700 * 1024, event, &mut again);
        assert!(again.is_empty());
    }
    assert_eq!(right.metrics().active_sequences, 2);
    assert_eq!(right.metrics().replay_drops, 2);
}
