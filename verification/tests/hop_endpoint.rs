use raynet::hop::endpoint::{CoreAction, EndpointCore, Metric};
use raynet::hop::machine::{
    decode_hop_packet, encode_hop_packet, seal_endpoint_message, ChannelState, ConfigError,
    CoreError, CoreEvent, CoreStructuredEvent, EndpointConfig, OpenFailureReason, RouteChannel,
    RouteTopology, TopologyNode,
};
use raynet::hop::nonce::core_filter;
use raynet::hop::packet::HopPacketError;
use raynet::hop::wire::{CloseReason, Envelope, Metadata, Target};
use raynet::kcp::Error as KcpError;
use raynet::random::RandomStream;

const TEST_ENVELOPE_KEY: [u8; 16] = [2; 16];
const TEST_MESSAGE_KEY: [u8; 16] = [3; 16];
const TEST_SEED: [u8; 16] = [4; 16];

fn config(local_node_id: u64, channel_id: u64, peer: u64) -> EndpointConfig {
    EndpointConfig {
        local_node_id,
        envelope_key: TEST_ENVELOPE_KEY,
        message_key: TEST_MESSAGE_KEY,
        random_seed: TEST_SEED,
        local_channels: vec![channel_id],
        route_topology: RouteTopology {
            nodes: vec![
                TopologyNode {
                    node_id: local_node_id,
                    channels: vec![RouteChannel {
                        channel_id,
                        peer_node_id: peer,
                    }],
                },
                TopologyNode {
                    node_id: peer,
                    channels: Vec::new(),
                },
            ],
        },
        transport_mtu: 1200,
    }
}

fn endpoint(local_node_id: u64, channel_id: u64, peer: u64) -> EndpointCore {
    match EndpointCore::new(
        config(local_node_id, channel_id, peer),
        Some(vec![channel_id]),
    ) {
        Ok(core) => core,
        Err(_) => panic!("an endpoint"),
    }
}

fn decode_test_packet(now_ms: u64, bytes: &[u8]) -> Envelope {
    let mut filter = core_filter();
    decode_hop_packet(now_ms, &TEST_ENVELOPE_KEY, &mut filter, bytes).unwrap()
}

fn first_created_conv(actions: &[CoreAction]) -> u64 {
    actions
        .iter()
        .find_map(|action| match action {
            CoreAction::IngressSessionCreated { conv_id } => Some(*conv_id),
            _ => None,
        })
        .expect("ingress session created action")
}

fn first_packet(actions: &[CoreAction]) -> Vec<u8> {
    actions
        .iter()
        .find_map(|action| match action {
            CoreAction::SendTransportPacket { bytes, .. } => Some(bytes.clone()),
            _ => None,
        })
        .expect("a packet")
}

fn request() -> CoreEvent {
    CoreEvent::IngressSessionRequested {
        target: Target {
            host: "example.com".to_string(),
            port: 443,
        },
        metadata: Metadata::new(),
    }
}

fn received(bytes: Vec<u8>) -> CoreEvent {
    CoreEvent::TransportPacketReceived {
        channel_id: 4,
        bytes,
    }
}

#[test]
fn endpoint_ingress_open_reaches_remote_endpoint() {
    let mut entry = endpoint(1, 2, 9);
    let mut exit = endpoint(9, 4, 1);
    let mut actions = Vec::new();

    entry.handle_event(100, request(), &mut actions).unwrap();

    let conv_id = first_created_conv(&actions);
    let Some(CoreAction::SendTransportPacket { channel_id, bytes }) = actions
        .iter()
        .find(|action| matches!(action, CoreAction::SendTransportPacket { .. }))
    else {
        panic!("expected send transport packet action");
    };
    assert_eq!(*channel_id, 2);
    assert!(decode_test_packet(100, bytes).route_plan.is_empty());

    let mut exit_actions = Vec::new();
    exit.handle_event(
        110,
        CoreEvent::TransportPacketReceived {
            channel_id: 4,
            bytes: bytes.clone(),
        },
        &mut exit_actions,
    )
    .unwrap();

    assert!(exit_actions.iter().any(|action| matches!(
        action,
        CoreAction::OpenExitConnection {
            conv_id: opened,
            target: Target { port: 443, .. },
            ..
        } if *opened == conv_id
    )));
}

#[test]
fn endpoint_session_bytes_reach_remote_session() {
    let mut entry = endpoint(1, 2, 9);
    let mut exit = endpoint(9, 4, 1);
    let mut actions = Vec::new();

    entry.handle_event(100, request(), &mut actions).unwrap();
    let conv_id = first_created_conv(&actions);
    let open_packet = first_packet(&actions);

    let mut exit_actions = Vec::new();
    exit.handle_event(
        110,
        CoreEvent::TransportPacketReceived {
            channel_id: 4,
            bytes: open_packet,
        },
        &mut exit_actions,
    )
    .unwrap();
    assert!(exit_actions.iter().any(|action| matches!(
        action,
        CoreAction::OpenExitConnection { conv_id: opened, .. } if *opened == conv_id
    )));
    exit.handle_event(
        111,
        CoreEvent::ExitConnectionOpened { conv_id },
        &mut Vec::new(),
    )
    .unwrap();

    actions.clear();
    entry
        .handle_event(
            101,
            CoreEvent::SessionBytes {
                conv_id,
                bytes: b"hello".to_vec(),
            },
            &mut actions,
        )
        .unwrap();

    let data_packet = first_packet(&actions);

    let mut data_actions = Vec::new();
    exit.handle_event(
        120,
        CoreEvent::TransportPacketReceived {
            channel_id: 4,
            bytes: data_packet,
        },
        &mut data_actions,
    )
    .unwrap();

    assert!(data_actions.iter().any(|action| matches!(
        action,
        CoreAction::WriteSession {
            conv_id: written,
            bytes,
        } if *written == conv_id && bytes == b"hello"
    )));
}

#[test]
fn ingress_is_reported_and_sent_once() {
    let mut entry = endpoint(1, 2, 9);
    let mut actions = Vec::new();
    entry.handle_event(100, request(), &mut actions).unwrap();
    let conv_id = first_created_conv(&actions);
    assert_eq!(actions.len(), 4);
    assert_eq!(
        actions[1],
        CoreAction::EmitMetric(Metric::IngressSessionCreated { conv_id })
    );
    assert_eq!(
        actions[2],
        CoreAction::EmitEvent(CoreStructuredEvent::IngressSessionCreated { conv_id })
    );
    actions.clear();
    entry.handle_event(100, request(), &mut actions).unwrap();
    assert_eq!(first_created_conv(&actions), conv_id.wrapping_add(1));
    assert_eq!(entry.channel_count(), 1);
}

#[test]
fn failed_exit_tells_the_entry_why() {
    for (reason, told) in [
        (OpenFailureReason::Refused, "Refused"),
        (OpenFailureReason::Timeout, "Timeout"),
        (OpenFailureReason::UnsupportedTarget, "UnsupportedTarget"),
        (
            OpenFailureReason::Error("no \"way\"\n".to_string()),
            "Error(\"no \\\"way\\\"\\n\")",
        ),
    ] {
        let mut entry = endpoint(1, 2, 9);
        let mut exit = endpoint(9, 4, 1);
        let mut actions = Vec::new();
        entry.handle_event(100, request(), &mut actions).unwrap();
        let conv_id = first_created_conv(&actions);
        let mut answers = Vec::new();
        exit.handle_event(110, received(first_packet(&actions)), &mut answers)
            .unwrap();
        answers.clear();
        exit.handle_event(
            111,
            CoreEvent::ExitConnectionOpenFailed { conv_id, reason },
            &mut answers,
        )
        .unwrap();
        actions.clear();
        entry
            .handle_event(120, received(first_packet(&answers)), &mut actions)
            .unwrap();
        assert!(actions.contains(&CoreAction::CloseSession {
            conv_id,
            reason: CloseReason::Error(told.to_string()),
        }));
        assert!(actions.contains(&CoreAction::EmitEvent(CoreStructuredEvent::SessionClosed {
            conv_id
        })));
        assert_eq!(entry.next_deadline(130), None);
    }
}

#[test]
fn closed_session_is_gone_and_reported() {
    let mut entry = endpoint(1, 2, 9);
    let mut exit = endpoint(9, 4, 1);
    let mut actions = Vec::new();
    entry.handle_event(100, request(), &mut actions).unwrap();
    let conv_id = first_created_conv(&actions);
    assert!(entry.next_deadline(100).is_some());
    let mut answers = Vec::new();
    exit.handle_event(110, received(first_packet(&actions)), &mut answers)
        .unwrap();
    actions.clear();
    entry
        .handle_event(
            115,
            CoreEvent::SessionClosed {
                conv_id,
                reason: CloseReason::LocalClosed,
            },
            &mut actions,
        )
        .unwrap();
    assert_eq!(
        actions.last(),
        Some(&CoreAction::EmitEvent(CoreStructuredEvent::SessionClosed {
            conv_id
        }))
    );
    assert_eq!(entry.next_deadline(120), None);
    answers.clear();
    exit.handle_event(120, received(first_packet(&actions)), &mut answers)
        .unwrap();
    assert!(answers.contains(&CoreAction::CloseSession {
        conv_id,
        reason: CloseReason::LocalClosed,
    }));
}

#[test]
fn lost_packets_are_sent_again() {
    let mut entry = endpoint(1, 2, 9);
    let mut exit = endpoint(9, 4, 1);
    let mut actions = Vec::new();
    entry.handle_event(100, request(), &mut actions).unwrap();
    actions.clear();
    let mut now = 100;
    while actions.is_empty() {
        now = entry.next_deadline(now).unwrap().max(now + 1);
        entry.poll(now, &mut actions).unwrap();
        assert!(now < 10_000);
    }
    let mut answers = Vec::new();
    exit.handle_event(now, received(first_packet(&actions)), &mut answers)
        .unwrap();
    assert!(answers
        .iter()
        .any(|action| matches!(action, CoreAction::OpenExitConnection { .. })));
}

#[test]
fn packets_that_cannot_be_taken() {
    let mut entry = endpoint(1, 2, 9);
    let mut exit = endpoint(9, 4, 1);
    let mut actions = Vec::new();
    entry.handle_event(100, request(), &mut actions).unwrap();
    let packet = first_packet(&actions);
    let mut answers = Vec::new();
    exit.handle_event(110, received(packet.clone()), &mut answers)
        .unwrap();
    answers.clear();
    assert_eq!(
        exit.handle_event(110, received(packet.clone()), &mut answers),
        Err(CoreError::HopPacket(HopPacketError::NonceReuse))
    );
    let mut broken = packet.clone();
    broken[40] ^= 1;
    assert_eq!(
        exit.handle_event(110, received(broken), &mut answers),
        Err(CoreError::HopPacket(HopPacketError::AuthFailed))
    );
    assert_eq!(
        exit.handle_event(110, received(vec![1, 2, 3]), &mut answers),
        Err(CoreError::HopPacket(HopPacketError::InvalidLength))
    );
    let mut random = RandomStream::for_domain(TEST_SEED, "test");
    let mut sealed = |route_plan: Vec<u64>, payload: Vec<u8>| {
        received(
            encode_hop_packet(
                110,
                &TEST_ENVELOPE_KEY,
                &mut random,
                &Envelope {
                    route_plan,
                    payload,
                },
            )
            .unwrap(),
        )
    };
    assert_eq!(
        exit.handle_event(110, sealed(vec![7], vec![0; 40]), &mut answers),
        Err(CoreError::NoRoute)
    );
    assert_eq!(
        exit.handle_event(110, sealed(Vec::new(), vec![0; 40]), &mut answers),
        Err(CoreError::EndpointMessageAuthFailed)
    );
    let short = seal_endpoint_message(&[9; 16], &TEST_MESSAGE_KEY, &[0; 27]);
    assert_eq!(
        exit.handle_event(110, sealed(Vec::new(), short), &mut answers),
        Err(CoreError::InvalidKcpSegment(27))
    );
    let strange = seal_endpoint_message(&[9; 16], &TEST_MESSAGE_KEY, &[0; 28]);
    assert_eq!(
        exit.handle_event(110, sealed(Vec::new(), strange), &mut answers),
        Err(CoreError::Session(KcpError::UnsupportedCmd))
    );
    assert!(answers.is_empty());
}

#[test]
fn no_plan_means_no_route() {
    assert!(matches!(
        EndpointCore::new(config(1, 2, 9), None),
        Err(ConfigError::NoRoute)
    ));
    assert!(matches!(
        EndpointCore::new(config(0, 2, 9), Some(vec![2])),
        Err(ConfigError::EmptyNodeId)
    ));
    let mut entry = endpoint(1, 2, 9);
    entry.set_route_plan(None);
    let mut actions = Vec::new();
    assert_eq!(
        entry.handle_event(100, request(), &mut actions),
        Err(CoreError::NoRoute)
    );
    assert_eq!(actions.len(), 3);
    entry.set_route_plan(Some(vec![2, 5, 6]));
    actions.clear();
    let mut now = 100;
    while actions.is_empty() {
        now += 10;
        entry.poll(now, &mut actions).unwrap();
        assert!(now < 10_000);
    }
    let CoreAction::SendTransportPacket { channel_id, bytes } = &actions[0] else {
        panic!("a packet");
    };
    assert_eq!(*channel_id, 2);
    assert_eq!(decode_test_packet(now, bytes).route_plan, vec![5, 6]);
}

#[test]
fn channel_updates_are_counted() {
    let mut entry = endpoint(1, 2, 9);
    let mut actions = Vec::new();
    entry
        .handle_event(
            1,
            CoreEvent::TransportChannelUpdated {
                channel_id: 2,
                state: ChannelState::Degraded,
            },
            &mut actions,
        )
        .unwrap();
    assert_eq!(
        actions,
        vec![CoreAction::EmitMetric(Metric::TransportChannelUpdated {
            channel_id: 2,
            state: ChannelState::Degraded,
        })]
    );
}

#[test]
fn nonces_follow_the_seed() {
    let sent = |mut core: EndpointCore| {
        let mut actions = Vec::new();
        core.handle_event(100, request(), &mut actions).unwrap();
        let first = first_packet(&actions);
        actions.clear();
        core.handle_event(100, request(), &mut actions).unwrap();
        (first, first_packet(&actions))
    };
    let (first, second) = sent(endpoint(1, 5, 2));
    assert_eq!((first.clone(), second.clone()), sent(endpoint(1, 5, 2)));
    let mut envelopes = RandomStream::for_domain(TEST_SEED, "endpoint envelope");
    assert_eq!(first[..16], envelopes.nonce());
    assert_eq!(second[..16], envelopes.nonce());
    let mut messages = RandomStream::for_domain(TEST_SEED, "endpoint message");
    assert_eq!(
        decode_test_packet(100, &first).payload[..16],
        messages.nonce()
    );
    assert_eq!(
        decode_test_packet(100, &second).payload[..16],
        messages.nonce()
    );
}
