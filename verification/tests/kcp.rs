use raynet::kcp::control::{
    get_conv, Kcp, KcpParams, KCP_CMD_ACK, KCP_CMD_PUSH, KCP_CMD_WASK, KCP_CMD_WINS, KCP_OVERHEAD,
};
use raynet::kcp::error::Error;

fn params(mtu: usize, send_window: u16, receive_window: u16) -> KcpParams {
    KcpParams {
        mtu,
        send_window,
        receive_window,
        nodelay: true,
        fast_resend: Some(2),
        congestion_control: false,
        time_scale: 1,
    }
}

#[test]
fn segment_header_layout_and_peer_decode() {
    let fast_resend = Some(2);
    let mut sender = Kcp::new(
        7,
        KcpParams {
            mtu: 1400,
            send_window: 60_000,
            receive_window: 60_000,
            nodelay: true,
            fast_resend,
            congestion_control: true,
            time_scale: 1,
        },
    );
    sender.update(123).unwrap();
    sender.send(b"KCP").unwrap();
    sender.flush().unwrap();
    let packet = sender.take_output().remove(0);

    assert_eq!(KCP_OVERHEAD, 28);
    assert_eq!(u64::from_le_bytes(packet[0..8].try_into().unwrap()), 7);
    assert_eq!(packet[8], KCP_CMD_PUSH);
    assert_eq!(packet[9], 0);
    assert_eq!(
        u16::from_le_bytes(packet[10..12].try_into().unwrap()),
        60_000
    );
    assert_eq!(u32::from_le_bytes(packet[12..16].try_into().unwrap()), 123);
    assert_eq!(u32::from_le_bytes(packet[16..20].try_into().unwrap()), 0);
    assert_eq!(u32::from_le_bytes(packet[20..24].try_into().unwrap()), 0);
    assert_eq!(u32::from_le_bytes(packet[24..28].try_into().unwrap()), 3);

    let mut receiver = Kcp::new(
        7,
        KcpParams {
            mtu: 1400,
            send_window: 64,
            receive_window: 256,
            nodelay: true,
            fast_resend,
            congestion_control: true,
            time_scale: 5,
        },
    );
    receiver.update(123).unwrap();
    receiver.input(&packet).unwrap();
    let mut output = [0; 3];
    assert_eq!(receiver.recv(&mut output).unwrap(), 3);
    assert_eq!(&output, b"KCP");
}

#[test]
fn a_long_message_is_cut_and_joined() {
    let mut sender = Kcp::new(9, params(100, 64, 128));
    let mut receiver = Kcp::new(9, params(100, 64, 128));
    sender.update(0).unwrap();
    receiver.update(0).unwrap();
    let message: Vec<u8> = (0..500u32).map(|i| i as u8).collect();
    assert_eq!(sender.send(&message).unwrap(), 500);
    assert_eq!(sender.wait_snd(), 7);
    sender.flush().unwrap();
    let packets = sender.take_output();
    assert!(packets.len() > 1);
    assert_eq!(receiver.peeksize(), Err(Error::RecvQueueEmpty));
    for packet in packets.iter().rev() {
        assert!(packet.len() <= 100);
        assert_eq!(get_conv(packet), 9);
        receiver.input(packet).unwrap();
    }
    assert_eq!(receiver.peeksize(), Ok(500));
    let mut buf = vec![0; 500];
    assert_eq!(receiver.recv(&mut buf).unwrap(), 500);
    assert_eq!(buf, message);
    receiver.flush().unwrap();
    for packet in receiver.take_output() {
        sender.input(&packet).unwrap();
    }
    assert_eq!(sender.wait_snd(), 0);
}

#[test]
fn a_lost_segment_is_sent_again() {
    let mut sender = Kcp::new(1, params(1400, 64, 128));
    let mut receiver = Kcp::new(1, params(1400, 64, 128));
    sender.update(0).unwrap();
    receiver.update(0).unwrap();
    sender.send(b"once").unwrap();
    sender.flush().unwrap();
    assert_eq!(sender.take_output().len(), 1);
    let mut now = 0;
    let mut resent = Vec::new();
    while resent.is_empty() && now < 10_000 {
        now += 10;
        sender.update(now).unwrap();
        resent = sender.take_output();
    }
    assert_eq!(resent.len(), 1);
    receiver.input(&resent[0]).unwrap();
    receiver.input(&resent[0]).unwrap();
    assert_eq!(receiver.recv_message().unwrap(), b"once");
    assert_eq!(receiver.peeksize(), Err(Error::RecvQueueEmpty));
}

#[test]
fn errors_of_the_control_block() {
    let mut kcp = Kcp::new(1, params(100, 4, 8));
    assert_eq!(kcp.flush(), Err(Error::NeedUpdate));
    assert_eq!(kcp.input(&[0; 10]), Err(Error::InvalidSegmentSize));
    let mut other = Kcp::new(2, params(100, 4, 8));
    other.update(0).unwrap();
    other.send(b"x").unwrap();
    other.flush().unwrap();
    let packet = other.take_output().remove(0);
    assert_eq!(kcp.input(&packet), Err(Error::ConvInconsistent));
    assert_eq!(kcp.send(&vec![0; 10_000]), Err(Error::UserBufTooBig));
    let mut bad = packet.clone();
    bad[0] = 1;
    bad[8] = 7;
    assert_eq!(kcp.input(&bad), Err(Error::UnsupportedCmd));
    let mut short = packet.clone();
    short[0] = 1;
    short[24] = 9;
    assert_eq!(kcp.input(&short), Err(Error::InvalidSegmentDataSize));
    let mut good = packet;
    good[0] = 1;
    kcp.update(0).unwrap();
    kcp.input(&good).unwrap();
    let mut none = [0; 0];
    assert_eq!(kcp.recv(&mut none), Err(Error::UserBufTooSmall));
}

#[test]
fn everything_arrives_whatever_the_order() {
    let mut sender = Kcp::new(7, params(60, 64, 64));
    let mut receiver = Kcp::new(7, params(60, 64, 64));
    sender.update(0).unwrap();
    receiver.update(0).unwrap();
    let messages: Vec<Vec<u8>> = vec![
        b"one".to_vec(),
        vec![2; 100],
        Vec::new(),
        (0..90).collect(),
        b"five".to_vec(),
    ];
    for message in &messages {
        sender.send(message).unwrap();
    }
    sender.flush().unwrap();
    let packets = sender.take_output();
    let n = packets.len();
    assert!(n > 5);
    let mut buf = [0; 200];
    for i in (1..n).rev() {
        for packet in [&packets[i], &packets[n - 1]] {
            assert_eq!(receiver.input(packet), Ok(packet.len()));
        }
        assert_eq!(receiver.recv(&mut buf), Err(Error::RecvQueueEmpty));
    }
    receiver.input(&packets[0]).unwrap();
    for message in &messages {
        assert_eq!(receiver.recv(&mut buf), Ok(message.len()));
        assert_eq!(&buf[..message.len()], message.as_slice());
    }
    assert_eq!(receiver.recv(&mut buf), Err(Error::RecvQueueEmpty));
}

#[test]
fn segments_wait_for_their_acknowledgement() {
    let mut sender = Kcp::new(7, params(60, 64, 64));
    let mut receiver = Kcp::new(7, params(60, 64, 64));
    sender.update(0).unwrap();
    receiver.update(0).unwrap();
    for byte in 1..4 {
        sender.send(&[byte; 32]).unwrap();
    }
    sender.flush().unwrap();
    let packets = sender.take_output();
    assert_eq!(packets.len(), 3);
    receiver.input(&packets[0]).unwrap();
    receiver.input(&packets[2]).unwrap();
    receiver.flush().unwrap();
    for packet in receiver.take_output() {
        sender.input(&packet).unwrap();
    }
    assert_eq!(sender.wait_snd(), 1);
    sender.update(1000).unwrap();
    let again = sender.take_output();
    assert_eq!(again.len(), 1);
    assert_eq!(again[0][16..20], [1, 0, 0, 0]);
    assert_eq!(again[0][28..], [2; 32]);
    receiver.input(&again[0]).unwrap();
    for byte in 1..4 {
        assert_eq!(receiver.recv_message(), Ok(vec![byte; 32]));
    }
    // a packet of another conversation acknowledges nothing
    let mut other = Kcp::new(8, params(60, 64, 64));
    other.update(0).unwrap();
    other.send(b"x").unwrap();
    other.flush().unwrap();
    assert_eq!(
        sender.input(&other.take_output()[0]),
        Err(Error::ConvInconsistent)
    );
    assert_eq!(sender.wait_snd(), 1);
}

#[test]
fn packets_are_whole_segments() {
    let mut sender = Kcp::new(7, params(100, 64, 64));
    sender.update(0).unwrap();
    sender.send(b"KCP").unwrap();
    sender.flush().unwrap();
    let packet = sender.take_output().remove(0);
    for extra in [1, 27] {
        let mut receiver = Kcp::new(7, params(100, 64, 64));
        receiver.update(0).unwrap();
        let mut longer = packet.clone();
        longer.resize(packet.len() + extra, 0);
        assert_eq!(receiver.input(&longer), Err(Error::InvalidSegmentSize));
        assert_eq!(receiver.input(&packet), Ok(packet.len()));
    }
    // acknowledgements and window commands carry no data
    for cmd in [KCP_CMD_ACK, KCP_CMD_WASK, KCP_CMD_WINS] {
        let mut receiver = Kcp::new(7, params(100, 64, 64));
        receiver.update(0).unwrap();
        let mut loaded = packet.clone();
        loaded[8] = cmd;
        assert_eq!(
            receiver.input(&loaded),
            Err(Error::InvalidSegmentDataSize)
        );
        loaded[24] = 0;
        loaded.truncate(28);
        assert_eq!(receiver.input(&loaded), Ok(28));
    }
    assert_eq!(sender.input(&[]), Err(Error::InvalidSegmentSize));
}
