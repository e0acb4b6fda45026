use raynet::limits::TRANSPORT_PACKET_OVERHEAD;
use raynet::machine::CloseReason;
use raynet::packet::{
    choose_padding, decode_transport_packet, encode_transport_packet, TransportPacketError,
};
use raynet::random::RandomStream;
use raynet::wire::{
    endpoint_nonce, EndpointMessage, Envelope, EnvelopeStamp, SessionMessage, WireError,
    CHANNEL_ID_SIZE, ENVELOPE_FIXED_OVERHEAD, FLAG_KCP, FLAG_KEEP_ALIVE, FLAG_ROUTE_REPLY,
};

const REPLY_DEPTH_SHIFT: u8 = 3;

fn get_u48(bytes: &[u8]) -> u64 {
    let mut wide = [0; 8];
    wide[..6].copy_from_slice(bytes);
    u64::from_le_bytes(wide)
}

#[test]
fn envelope_header_layout_and_decode() {
    let envelope = Envelope {
        time: 1,
        seq_id: 2,
        seq_no: 3,
        route_plan: vec![2, 3],
        payload: b"payload".to_vec(),
        padding_len: 3,
    };

    let encoded = envelope.encode_with_prefix(0);
    assert_eq!(
        encoded.len(),
        ENVELOPE_FIXED_OVERHEAD
            + envelope.payload.len()
            + 2 * CHANNEL_ID_SIZE
            + envelope.padding_len as usize
    );
    assert_eq!(u32::from_le_bytes(encoded[0..4].try_into().unwrap()), 66);
    assert_eq!(get_u48(&encoded[4..10]), 2);
    assert_eq!(get_u48(&encoded[10..16]), 3);
    assert_eq!(&encoded[16..23], b"payload");
    assert_eq!(u16::from_le_bytes(encoded[23..25].try_into().unwrap()), 2);
    assert_eq!(u16::from_le_bytes(encoded[25..27].try_into().unwrap()), 3);
    assert_eq!(&encoded[encoded.len() - 3..], &[3, 3, 3]);
    assert_eq!(Envelope::decode(&encoded).unwrap(), envelope);
    assert_eq!(
        endpoint_nonce(EnvelopeStamp {
            time: 1,
            seq_id: 2,
            seq_no: 3,
        })[..4],
        ((1u32 << 6).to_le_bytes())
    );
}

#[test]
fn endpoint_message_layouts() {
    for reply_depth in 0..=3 {
        let kcp = EndpointMessage::KcpPacket {
            reply_depth,
            packet: b"abcd".to_vec(),
        };
        let encoded = kcp.encode_with_prefix(0);
        assert_eq!(encoded[0], FLAG_KCP | (reply_depth << REPLY_DEPTH_SHIFT));
        assert_eq!(&encoded[1..], b"abcd");
        assert_eq!(EndpointMessage::decode(&encoded), kcp);

        let keep = EndpointMessage::KeepAlive { reply_depth };
        let encoded = keep.encode_with_prefix(0);
        assert_eq!(
            encoded,
            [FLAG_KEEP_ALIVE | (reply_depth << REPLY_DEPTH_SHIFT)]
        );
        assert_eq!(EndpointMessage::decode(&encoded), keep);

        let reply = EndpointMessage::RouteReply {
            reply_depth,
            received_seq_id: 0x3344_5566_7788,
            received_seq_no: 0x1122_99aa_bbcc,
        };
        let encoded = reply.encode_with_prefix(0);
        assert_eq!(encoded.len(), 13);
        assert_eq!(
            encoded[0],
            FLAG_ROUTE_REPLY | (reply_depth << REPLY_DEPTH_SHIFT)
        );
        assert_eq!(EndpointMessage::decode(&encoded), reply);
    }
}

#[test]
fn session_message_layout_and_decode() {
    assert_eq!(SessionMessage::Open.encode(), [0]);
    assert_eq!(SessionMessage::decode(&[0]), SessionMessage::Open);

    let bytes = SessionMessage::Data {
        bytes: b"data".to_vec(),
    };
    assert_eq!(bytes.encode(), b"\x01data");
    assert_eq!(SessionMessage::decode(b"\x01data"), bytes);

    for reason in [
        CloseReason::LocalClosed,
        CloseReason::RemoteClosed,
        CloseReason::Reset,
        CloseReason::Error,
    ] {
        let message = SessionMessage::Close { reason };
        let encoded = message.encode();
        assert_eq!(encoded, [2, reason.as_code()]);
        assert_eq!(SessionMessage::decode(&encoded), message);
    }
}

#[test]
fn transport_packet_roundtrip() {
    let key = [7; 16];
    let mut random = RandomStream::new([9; 16]);
    let envelope = Envelope {
        time: 1,
        seq_id: 2,
        seq_no: 3,
        route_plan: vec![4],
        payload: b"payload".to_vec(),
        padding_len: 1,
    };
    let expected_len = TRANSPORT_PACKET_OVERHEAD + envelope.encode_with_prefix(0).len();

    let packet = encode_transport_packet(&key, &mut random, &envelope);

    assert_eq!(packet.len(), expected_len);
    assert_eq!(
        decode_transport_packet(&key, &packet).unwrap().payload,
        b"payload"
    );
}

#[test]
fn messages_that_do_not_decode() {
    assert!(!SessionMessage::is_encoded(&[]));
    assert!(!SessionMessage::is_encoded(&[0, 0]));
    assert!(!SessionMessage::is_encoded(&[2, 4]));
    assert!(!SessionMessage::is_encoded(&[3]));
    assert!(SessionMessage::is_encoded(&[1]));
    assert!(!EndpointMessage::is_encoded(&[]));
    assert!(!EndpointMessage::is_encoded(&[0]));
    assert!(!EndpointMessage::is_encoded(&[FLAG_ROUTE_REPLY, 0]));
    assert!(EndpointMessage::is_encoded(&[FLAG_KCP]));
}

#[test]
fn envelopes_that_do_not_decode() {
    assert_eq!(Envelope::decode(&[0; 15]), Err(WireError));
    // a plan that does not fit
    let mut bytes = vec![0; 17];
    bytes[0] = 63;
    bytes[16] = 1;
    assert_eq!(Envelope::decode(&bytes), Err(WireError));
    // padding that does not fit
    let mut bytes = vec![0; 17];
    bytes[16] = 2;
    assert_eq!(Envelope::decode(&bytes), Err(WireError));
    let mut bytes = vec![0; 17];
    bytes[16] = 1;
    assert_eq!(Envelope::decode(&bytes).unwrap().padding_len, 1);
}

#[test]
fn prefixes_are_zero() {
    let keep = EndpointMessage::KeepAlive { reply_depth: 0 };
    assert_eq!(keep.encode_with_prefix(3), [0, 0, 0, FLAG_KEEP_ALIVE]);
}

#[test]
fn nonces_tell_numbers_apart() {
    let stamp = EnvelopeStamp {
        time: 9,
        seq_id: 1,
        seq_no: 1,
    };
    let next = EnvelopeStamp { seq_no: 2, ..stamp };
    assert_ne!(endpoint_nonce(stamp), endpoint_nonce(next));
    assert_eq!(endpoint_nonce(stamp)[4], 1);
}

#[test]
fn packets_under_another_key_are_refused() {
    let mut random = RandomStream::new([9; 16]);
    let envelope = Envelope {
        time: 1,
        seq_id: 2,
        seq_no: 3,
        route_plan: vec![],
        payload: b"payload".to_vec(),
        padding_len: 1,
    };
    let packet = encode_transport_packet(&[7; 16], &mut random, &envelope);
    assert_eq!(
        decode_transport_packet(&[8; 16], &packet),
        Err(TransportPacketError::Authentication)
    );
    assert_eq!(
        decode_transport_packet(&[7; 16], &vec![0; 3]),
        Err(TransportPacketError::InvalidLength)
    );
    assert!(!packet.windows(7).any(|window| window == b"payload"));
}

#[test]
fn streams_depend_on_their_seed_and_continue() {
    let mut whole = RandomStream::new([1; 16]);
    let mut parts = RandomStream::new([1; 16]);
    let mut other = RandomStream::new([2; 16]);
    let bytes = whole.fill(40);
    let mut joined = parts.fill(13);
    joined.extend(parts.fill(27));
    assert_eq!(bytes, joined);
    assert_ne!(bytes, other.fill(40));
    assert_ne!(bytes, vec![0; 40]);
    let mut number = RandomStream::new([1; 16]);
    assert_eq!(
        number.u64(),
        u64::from_le_bytes(bytes[..8].try_into().unwrap())
    );
    let key = blake3::hash(&[1; 16]);
    let mut reader = blake3::Hasher::new_keyed(key.as_bytes()).finalize_xof();
    let mut expected = vec![0; 40];
    reader.fill(&mut expected);
    assert_eq!(bytes, expected);
}

#[test]
fn padding_stays_in_its_room() {
    let mut random = RandomStream::new([3; 16]);
    for room in [1usize, 2, 7, 255, 256, 1000] {
        for _ in 0..50 {
            let padding = choose_padding(&mut random, room);
            assert!(padding >= 1 && padding as usize <= room);
        }
    }
}

#[test]
fn what_decodes_encodes_to_the_same_bytes() {
    let mut bytes = vec![0xc2, 0xff, 0xff, 0xff];
    bytes.extend(1..=12);
    bytes.extend(b"payload");
    bytes.extend([9, 8, 7, 6, 2, 2]);
    let envelope = Envelope::decode(&bytes).unwrap();
    assert_eq!(envelope.route_plan, [0x0809, 0x0607]);
    assert_eq!(envelope.encode_with_prefix(0), bytes);
    for bytes in [
        vec![FLAG_KCP | 2 << REPLY_DEPTH_SHIFT, 1, 2],
        vec![FLAG_KEEP_ALIVE],
        [vec![FLAG_ROUTE_REPLY | 3 << REPLY_DEPTH_SHIFT], vec![7; 12]].concat(),
    ] {
        assert_eq!(EndpointMessage::decode(&bytes).encode_with_prefix(0), bytes);
    }
    for bytes in [vec![0], vec![1], vec![1, 5], vec![2, 3]] {
        assert_eq!(SessionMessage::decode(&bytes).encode(), bytes);
    }
}
