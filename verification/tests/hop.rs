use raynet::hop::machine::{
    decode_hop_packet, encode_hop_packet, handle_session_frame, open_endpoint_message,
    seal_endpoint_message, session_mtu, validate_endpoint_config, ChannelState, ConfigError,
    ConvIds, CoreError, CoreEvent, CoreStructuredEvent, EndpointConfig, FrameStep, RelayAction,
    RelayConfig, RelayCore, RouteChannel, RouteTopology, TopologyNode,
};
use raynet::hop::nonce::{
    core_filter, NonceFilter, REPLAY_FILTER_BITS, REPLAY_FILTER_ITEMS, REPLAY_PERIOD_MS,
};
use raynet::hop::packet::{
    open_hop_payload, seal_hop_payload, seal_hop_payload_with, HopPacketError,
};
use raynet::hop::wire::{
    CloseReason, Envelope, Metadata, SessionFrame, Target, WireError,
};
use raynet::random::RandomStream;

const TEST_ENVELOPE_KEY: [u8; 16] = [2; 16];
const TEST_SEED: [u8; 16] = [4; 16];

fn relay(local_node_id: u64, channels: Vec<u64>) -> RelayCore {
    match RelayCore::new(
        RelayConfig {
            local_node_id,
            envelope_key: TEST_ENVELOPE_KEY,
            random_seed: TEST_SEED,
            local_channels: channels,
        },
    ) {
        Ok(relay) => relay,
        Err(_) => panic!("a relay"),
    }
}

fn filter() -> NonceFilter {
    core_filter()
}

fn encode_test_packet(now_ms: u64, envelope: Envelope) -> Vec<u8> {
    let mut random = RandomStream::for_domain(TEST_SEED, "test");
    encode_hop_packet(now_ms, &TEST_ENVELOPE_KEY, &mut random, &envelope).unwrap()
}

fn decode_test_packet(now_ms: u64, bytes: &[u8]) -> Envelope {
    decode_hop_packet(now_ms, &TEST_ENVELOPE_KEY, &mut filter(), bytes).unwrap()
}

#[test]
fn envelope_roundtrips_route_plan_and_payload() {
    let envelope = Envelope {
        route_plan: vec![2, 3],
        payload: b"payload".to_vec(),
    };

    let encoded = envelope.encode().unwrap();
    let decoded = Envelope::decode(&encoded).unwrap();

    assert_eq!(decoded, envelope);
}

#[test]
fn session_frame_roundtrips_open_connection() {
    let mut metadata = Metadata::new();
    metadata.insert("proto".to_string(), "tcp".to_string());
    let frame = SessionFrame::OpenConnection {
        target: Target {
            host: "example.com".to_string(),
            port: 443,
        },
        metadata,
    };

    let encoded = frame.encode().unwrap();
    let decoded = SessionFrame::decode(&encoded).unwrap();

    assert_eq!(decoded, frame);
}

#[test]
fn allocation_wraps_through_zero() {
    let mut core = ConvIds::from_seed(&TEST_SEED);
    core.next_conv_id = u64::MAX;

    assert_eq!(core.allocate_conv_id(), u64::MAX);
    assert_eq!(core.allocate_conv_id(), 0);
}

#[test]
fn relay_consumes_next_channel_from_route_plan() {
    let mut relay = relay(2, vec![2, 3]);
    let envelope = Envelope {
        route_plan: vec![2, 3],
        payload: b"kcp".to_vec(),
    };
    let mut actions = Vec::new();

    relay
        .handle_event(
            100,
            CoreEvent::TransportPacketReceived {
                channel_id: 1,
                bytes: encode_test_packet(100, envelope),
            },
            &mut actions,
        )
        .unwrap();

    let [RelayAction::SendTransportPacket { channel_id, bytes }] = actions.as_slice() else {
        panic!("expected exactly one send action");
    };
    assert_eq!(*channel_id, 2);

    let forwarded = decode_test_packet(100, bytes);
    assert_eq!(forwarded.route_plan, vec![3]);
}

#[test]
fn relay_rejects_empty_route_plan() {
    let mut relay = relay(2, vec![2, 3]);
    let envelope = Envelope {
        route_plan: Vec::new(),
        payload: b"kcp".to_vec(),
    };
    let mut actions = Vec::new();

    let result = relay.handle_event(
        100,
        CoreEvent::TransportPacketReceived {
            channel_id: 1,
            bytes: encode_test_packet(100, envelope),
        },
        &mut actions,
    );

    assert!(matches!(result, Err(CoreError::NoRoute)));
    assert!(actions.is_empty());
}

#[test]
fn relay_drops_replays_and_unusable_channels() {
    let mut relay = relay(2, vec![2, 3]);
    let packet = encode_test_packet(
        100,
        Envelope {
            route_plan: vec![3],
            payload: b"x".to_vec(),
        },
    );
    let event = CoreEvent::TransportPacketReceived {
        channel_id: 1,
        bytes: packet,
    };
    let mut actions = Vec::new();
    assert_eq!(relay.handle_event(100, event.clone(), &mut actions), Ok(()));
    assert_eq!(
        relay.handle_event(101, event, &mut actions),
        Err(CoreError::HopPacket(HopPacketError::NonceReuse))
    );
    assert_eq!(actions.len(), 1);
    assert_eq!(
        relay.handle_event(
            102,
            CoreEvent::TransportChannelUpdated {
                channel_id: 3,
                state: ChannelState::Down,
            },
            &mut actions,
        ),
        Ok(())
    );
    let packet = encode_hop_packet(
        102,
        &TEST_ENVELOPE_KEY,
        &mut RandomStream::for_domain(TEST_SEED, "another test"),
        &Envelope {
            route_plan: vec![3],
            payload: b"x".to_vec(),
        },
    )
    .unwrap();
    assert_eq!(
        relay.handle_event(
            102,
            CoreEvent::TransportPacketReceived {
                channel_id: 1,
                bytes: packet,
            },
            &mut actions,
        ),
        Err(CoreError::NoRoute)
    );
    assert_eq!(
        relay.handle_event(
            103,
            CoreEvent::ExitConnectionOpened { conv_id: 1 },
            &mut actions
        ),
        Err(CoreError::UnsupportedEvent)
    );
    assert_eq!(relay.channel_count(), 2);
    assert_eq!(relay.next_deadline(5), None);
}

#[test]
fn envelope_layout_and_errors() {
    let envelope = Envelope {
        route_plan: vec![7],
        payload: vec![9, 8],
    };
    let encoded = envelope.encode().unwrap();
    assert_eq!(
        encoded,
        [b'R', b'N', b'E', b'1', 1, 0, 2, 0, 0, 0, 7, 0, 0, 0, 0, 0, 0, 0, 9, 8]
    );
    assert_eq!(Envelope::decode(&encoded[..3]), Err(WireError::ShortBuffer));
    let mut bad = encoded.clone();
    bad[0] = b'X';
    assert_eq!(Envelope::decode(&bad), Err(WireError::InvalidMagic));
    let mut long = encoded.clone();
    long.push(0);
    assert_eq!(Envelope::decode(&long), Err(WireError::LengthOutOfBounds));
    let mut many = encoded;
    many[4] = 65;
    assert_eq!(Envelope::decode(&many), Err(WireError::CountOutOfBounds));
    assert_eq!(Envelope::decode(&vec![0; 65537]), Err(WireError::TooLarge));
    let wide = Envelope {
        route_plan: vec![0; 65],
        payload: vec![],
    };
    assert_eq!(wide.encode(), Err(WireError::CountOutOfBounds));
    let heavy = Envelope {
        route_plan: vec![],
        payload: vec![0; 65537],
    };
    assert_eq!(heavy.encode(), Err(WireError::TooLarge));
}

#[test]
fn frames_roundtrip_and_refuse() {
    let frames = [
        SessionFrame::ConnectionBytes {
            bytes: vec![1, 2, 3],
        },
        SessionFrame::CloseConnection {
            reason: CloseReason::LocalClosed,
        },
        SessionFrame::ResetConnection {
            reason: CloseReason::Error("broken".to_string()),
        },
        SessionFrame::CloseConnection {
            reason: CloseReason::Reset,
        },
        SessionFrame::ResetConnection {
            reason: CloseReason::RemoteClosed,
        },
        SessionFrame::KeepAlive,
    ];
    for frame in frames {
        let encoded = frame.encode().unwrap();
        assert_eq!(SessionFrame::decode(&encoded).unwrap(), frame);
    }
    assert_eq!(
        SessionFrame::KeepAlive.encode().unwrap(),
        [b'R', b'N', b'F', b'1', 4]
    );
    assert_eq!(
        SessionFrame::decode(&[b'R', b'N', b'F', b'1', 9]),
        Err(WireError::InvalidFrameType(9))
    );
    assert_eq!(
        SessionFrame::decode(&[b'R', b'N', b'F', b'1', 2, 3, 1, 0, 0, 0, 0xff]),
        Err(WireError::InvalidUtf8)
    );
    // any other code is an error with a text
    assert_eq!(
        SessionFrame::decode(&[b'R', b'N', b'F', b'1', 2, 77, 1, 0, 0, 0, b'x']).unwrap(),
        SessionFrame::CloseConnection {
            reason: CloseReason::Error("x".to_string()),
        }
    );
    let long = SessionFrame::CloseConnection {
        reason: CloseReason::Error("x".repeat(4097)),
    };
    assert_eq!(long.encode(), Err(WireError::TooLarge));
    let bytes = SessionFrame::ConnectionBytes {
        bytes: vec![0; 65536],
    };
    assert_eq!(bytes.encode(), Err(WireError::TooLarge));
    let mut metadata = Metadata::new();
    for i in 0..65 {
        metadata.insert(format!("key {i}"), "value".to_string());
    }
    let open = SessionFrame::OpenConnection {
        target: Target {
            host: "h".to_string(),
            port: 1,
        },
        metadata,
    };
    assert_eq!(open.encode(), Err(WireError::CountOutOfBounds));
}

#[test]
fn metadata_is_ordered_by_key() {
    let mut metadata = Metadata::new();
    metadata.insert("b".to_string(), "1".to_string());
    metadata.insert("a".to_string(), "2".to_string());
    metadata.insert("b".to_string(), "3".to_string());
    assert_eq!(metadata.len(), 2);
    assert_eq!(metadata.get(&"b".to_string()), Some(&"3".to_string()));
    assert_eq!(metadata.get(&"c".to_string()), None);
    let frame = SessionFrame::OpenConnection {
        target: Target {
            host: String::new(),
            port: 0,
        },
        metadata,
    };
    let encoded = frame.encode().unwrap();
    assert_eq!(
        encoded[11..],
        [2, 0, 1, 0, 0, 0, b'a', 1, 0, 0, 0, b'2', 1, 0, 0, 0, b'b', 1, 0, 0, 0, b'3']
    );
}

#[test]
fn packets_open_near_their_time() {
    let key = [9; 16];
    let sealed_at: u64 = 1_000_000;
    let packet = seal_hop_payload(sealed_at, &key, b"payload");
    assert_eq!(packet.len(), 32 + 7);
    for skew in [-16384i64, -9000, 0, 77, 16384] {
        let now = sealed_at.wrapping_add_signed(skew);
        assert_eq!(
            open_hop_payload(now, &key, &packet, &mut filter()),
            Ok(b"payload".to_vec())
        );
    }
    assert_eq!(
        open_hop_payload(sealed_at + 70_000, &key, &packet, &mut filter()),
        Err(HopPacketError::AuthFailed)
    );
    assert_eq!(
        open_hop_payload(sealed_at, &[8; 16], &packet, &mut filter()),
        Err(HopPacketError::AuthFailed)
    );
    assert_eq!(
        open_hop_payload(sealed_at, &key, &packet[..31], &mut filter()),
        Err(HopPacketError::InvalidLength)
    );
    assert_eq!(
        open_hop_payload(sealed_at, &key, &vec![0; 65569], &mut filter()),
        Err(HopPacketError::InvalidLength)
    );
    assert_ne!(packet, seal_hop_payload(sealed_at, &key, b"payload"));
    let fixed = seal_hop_payload_with(&[5; 16], sealed_at, &key, b"payload");
    assert_eq!(fixed[..16], [5; 16]);
    assert_ne!(fixed[32..], b"payload"[..]);
}

#[test]
fn nonces_are_refused_for_two_periods() {
    let mut filter = NonceFilter::new(1 << 16, 1000, 1000, 0);
    assert!(filter.check_and_set(10, &[1; 16]));
    assert!(!filter.check_and_set(11, &[1; 16]));
    assert!(!filter.check_and_set(1500, &[1; 16]));
    assert!(!filter.check_and_set(1999, &[1; 16]));
    // the second period began at 1500, the third one begins at 2500
    assert!(filter.check_and_set(2600, &[1; 16]));
    let mut filter = NonceFilter::new(1 << 16, 1000, 1000, 0);
    assert!(filter.check(&[2; 16]));
    filter.rotate();
    assert!(!filter.check(&[2; 16]));
    filter.rotate();
    filter.rotate();
    assert!(filter.check(&[2; 16]));
}

#[test]
fn endpoint_messages_open_under_their_key() {
    let message = seal_endpoint_message(&[1; 16], &[2; 16], b"segment");
    assert_eq!(
        open_endpoint_message(&[2; 16], &message),
        Ok(b"segment".to_vec())
    );
    assert_eq!(
        open_endpoint_message(&[3; 16], &message),
        Err(CoreError::EndpointMessageAuthFailed)
    );
    assert_eq!(
        open_endpoint_message(&[2; 16], &message[..31]),
        Err(CoreError::EndpointMessageAuthFailed)
    );
    assert_ne!(message[32..], b"segment"[..]);
}

#[test]
fn configurations_are_checked() {
    let mut config = EndpointConfig {
        local_node_id: 1,
        envelope_key: TEST_ENVELOPE_KEY,
        message_key: [3; 16],
        random_seed: TEST_SEED,
        local_channels: vec![2],
        route_topology: RouteTopology {
            nodes: vec![
                TopologyNode {
                    node_id: 1,
                    channels: vec![RouteChannel {
                        channel_id: 2,
                        peer_node_id: 9,
                    }],
                },
                TopologyNode {
                    node_id: 9,
                    channels: vec![],
                },
            ],
        },
        transport_mtu: 1200,
    };
    assert_eq!(validate_endpoint_config(&config), Ok(()));
    config.route_topology.nodes[0].channels.push(RouteChannel {
        channel_id: 5,
        peer_node_id: 9,
    });
    assert_eq!(
        validate_endpoint_config(&config),
        Err(ConfigError::UnknownLocalChannel(5))
    );
    config.transport_mtu = 0;
    assert_eq!(validate_endpoint_config(&config), Err(ConfigError::ZeroMtu));
    config.local_node_id = 0;
    assert_eq!(
        validate_endpoint_config(&config),
        Err(ConfigError::EmptyNodeId)
    );
    assert_eq!(session_mtu(1200), 1072);
    assert_eq!(session_mtu(100), 50);
    let ids = ConvIds::from_seed(&TEST_SEED);
    let hash = blake3::derive_key("RayNet conv id counter v1", &TEST_SEED);
    assert_eq!(
        ids.next_conv_id,
        u64::from_le_bytes(hash[0..8].try_into().unwrap())
    );
}

#[test]
fn frames_become_steps() {
    assert_eq!(
        handle_session_frame(4, SessionFrame::ConnectionBytes { bytes: vec![1] }),
        FrameStep::WriteSession {
            conv_id: 4,
            bytes: vec![1],
        }
    );
    assert_eq!(
        handle_session_frame(
            4,
            SessionFrame::ResetConnection {
                reason: CloseReason::Reset,
            }
        ),
        FrameStep::CloseSession {
            conv_id: 4,
            reason: CloseReason::Reset,
            event: CoreStructuredEvent::SessionClosed { conv_id: 4 },
        }
    );
    assert_eq!(
        handle_session_frame(4, SessionFrame::KeepAlive),
        FrameStep::KeepAlive
    );
}

#[test]
fn frames_are_read_whole_or_not_at_all() {
    let mut metadata = Metadata::new();
    metadata.insert("proto".to_string(), "tcp".to_string());
    let frames = vec![
        SessionFrame::OpenConnection {
            target: Target {
                host: "example.com".to_string(),
                port: 443,
            },
            metadata,
        },
        SessionFrame::ConnectionBytes {
            bytes: b"hello".to_vec(),
        },
        SessionFrame::CloseConnection {
            reason: CloseReason::Error("gone".to_string()),
        },
        SessionFrame::ResetConnection {
            reason: CloseReason::Reset,
        },
        SessionFrame::KeepAlive,
    ];
    for frame in frames {
        let mut bytes = frame.encode().unwrap();
        assert_eq!(SessionFrame::decode(&bytes), Ok(frame));
        for len in 0..bytes.len() {
            assert!(SessionFrame::decode(&bytes[..len]).is_err());
        }
        bytes.push(0);
        assert!(SessionFrame::decode(&bytes).is_err());
    }
}

#[test]
fn relay_nonces_follow_the_seed() {
    let packet = encode_test_packet(
        100,
        Envelope {
            route_plan: vec![2],
            payload: b"payload".to_vec(),
        },
    );
    let sent = |mut core: RelayCore| {
        let mut actions = Vec::new();
        core.handle_event(
            100,
            CoreEvent::TransportPacketReceived {
                channel_id: 1,
                bytes: packet.clone(),
            },
            &mut actions,
        )
        .unwrap();
        assert_eq!(core.poll(200, &mut actions), Ok(()));
        assert_eq!(actions.len(), 1);
        match actions.remove(0) {
            RelayAction::SendTransportPacket { bytes, .. } => bytes,
            _ => panic!("a packet"),
        }
    };
    let first = sent(relay(7, vec![1, 2]));
    assert_eq!(first, sent(relay(8, vec![1, 2])));
    let nonce = RandomStream::for_domain(TEST_SEED, "relay envelope").nonce();
    assert_eq!(first[..16], nonce);
}

#[test]
fn replay_filters_have_room_for_a_period() {
    let ln2 = std::f64::consts::LN_2;
    let bytes = ((1 << 24) as f64 * 0.00001f64.ln() / (-8.0 * ln2 * ln2)).ceil();
    assert_eq!(REPLAY_FILTER_BITS, 8 * bytes as usize);
    assert_eq!(REPLAY_FILTER_ITEMS, 1 << 24);
    assert_eq!(REPLAY_PERIOD_MS, 1 << 16);
    let filter =
        fastbloom::BloomFilter::with_num_bits(REPLAY_FILTER_BITS).expected_items(1 << 24);
    let wanted = fastbloom::BloomFilter::with_false_pos(0.00001).expected_items(1 << 24);
    assert_eq!(filter.num_bits(), wanted.num_bits());
    assert_eq!(filter.num_hashes(), wanted.num_hashes());
}

#[test]
fn envelopes_have_one_form() {
    let bytes = [
        b'R', b'N', b'E', b'1', 2, 0, 1, 0, 0, 0, 1, 2, 3, 4, 5, 6, 7, 8, 9, 0, 0, 0, 0, 0, 0,
        0xff, 42,
    ];
    let envelope = Envelope::decode(&bytes).unwrap();
    assert_eq!(envelope.payload, [42]);
    assert_eq!(envelope.encode().unwrap(), bytes);
}
