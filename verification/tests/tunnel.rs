use raynet::hop::nonce::{core_filter, NonceFilter};
use raynet::tunnel::connections::{
    Assigned, Connections, DatagramStep, ReadOutcome, ReadStep, WriteOutcome, WriteStep,
};
use raynet::tunnel::counter::{TimedCounter, BUCKET_LENGTH, WINDOW_NANOS};
use raynet::tunnel::inbox::{Inbox, InboxStep};
use raynet::tunnel::packet::{KCPPacket, RayPacket, RayPacketError, RayPacketType};
use raynet::tunnel::session::{
    begin_delivery, deliver, next_update, plan_update, take_input, Delivery, DeliveryEvent,
    InputStep, UpdateStep, KCP_OVERHEAD,
};
use raynet::tunnel::settings::{tunnel_settings, TunnelCliConfig, TunnelFileConfig};
use raynet::tunnel::socket::{
    InputOutcome, InputResult, KcpConfig, KcpNoDelayConfig, KcpSocket, KcpStatus, RecvOutcome,
    RecvStep, SendStep, Woken,
};
use raynet::tunnel::updater::{Phase, Turn, Updater};

fn filter() -> NonceFilter {
    core_filter()
}

fn packet(ptype: RayPacketType, data: &[u8]) -> RayPacket {
    RayPacket::new(
        ptype,
        KCPPacket {
            data: data.to_vec(),
        },
    )
}

#[test]
fn packets_roundtrip_with_their_type() {
    let key = [7; 16];
    for ptype in [
        RayPacketType::DataPacket,
        RayPacketType::StatRequest,
        RayPacketType::StatResponse,
    ] {
        let mut out = vec![0xaa; 100];
        let sent = packet(ptype, b"hello");
        let size = sent.encrypt(50_000, &key, &mut out);
        assert_eq!(size, 38);
        assert_eq!(out[38..], [0xaa; 62]);
        assert_ne!(out[33..38], b"hello"[..]);
        let mut filter = filter();
        let got = RayPacket::decrypt(&key, &out[..size], 60_000, &mut filter).unwrap();
        assert_eq!(got, sent);
        assert_eq!(
            RayPacket::decrypt(&key, &out[..size], 60_000, &mut filter),
            Err(RayPacketError::NonceReuseError)
        );
    }
}

#[test]
fn bad_packets_are_refused() {
    let key = [7; 16];
    let mut out = vec![0; 100];
    let size = packet(RayPacketType::DataPacket, b"x").encrypt_with(&[1; 16], 0, &key, &mut out);
    assert_eq!(
        RayPacket::decrypt(&key, &out[..32], 0, &mut filter()),
        Err(RayPacketError::BufLengthError)
    );
    assert_eq!(
        RayPacket::decrypt(&key, &vec![0; 4097], 0, &mut filter()),
        Err(RayPacketError::BufLengthError)
    );
    let mut forged = filter();
    assert_eq!(
        RayPacket::try_decrypt(&[8; 16], &out[..size], 0, &mut forged),
        Some(Err(RayPacketError::DecryptError))
    );
    // the nonce of a packet that did not open is remembered all the same
    assert_eq!(
        RayPacket::try_decrypt(&key, &out[..size], 0, &mut forged),
        Some(Err(RayPacketError::NonceReuseError))
    );
    assert_eq!(
        RayPacket::try_decrypt(&key, &out[..size], 0, &mut filter()),
        Some(Ok(packet(RayPacketType::DataPacket, b"x")))
    );
    let untyped = raynet::hop::packet::seal_hop_payload_with(&[1; 16], 0, &key, &[9, 1]);
    assert_eq!(
        RayPacket::try_decrypt(&key, &untyped, 0, &mut filter()),
        None
    );
    assert_eq!(RayPacket::from_plain(&[3]), None);
    assert_eq!(RayPacketType::from_byte(2), Some(RayPacketType::StatResponse));
    assert_eq!(RayPacketType::StatRequest.to_byte(), 1);
}

#[test]
fn counters_forget() {
    let start = 1_000 * WINDOW_NANOS;
    let mut counter = TimedCounter::new(start);
    assert_eq!(counter.get(start), 0);
    counter.inc(start);
    counter.add(start + 5, 4);
    assert_eq!(counter.get(start + 5), 5);
    counter.inc(start + 3 * BUCKET_LENGTH);
    assert_eq!(counter.get(start + 3 * BUCKET_LENGTH), 6);
    assert_eq!(counter.get(start + 60 * BUCKET_LENGTH), 6);
    assert_eq!(counter.get(start + 66 * BUCKET_LENGTH), 1);
    assert_eq!(counter.get(start + 68 * BUCKET_LENGTH), 0);
    counter.inc(start + 200 * BUCKET_LENGTH);
    assert_eq!(counter.get(start + 200 * BUCKET_LENGTH), 1);
}

#[test]
fn settings_of_sockets() {
    assert_eq!(KcpNoDelayConfig::default().interval, 100);
    assert_eq!(KcpNoDelayConfig::fastest().resend, 2);
    assert!(KcpNoDelayConfig::fastest().nc);
    assert_eq!(KcpNoDelayConfig::normal().interval, 40);
    let config = KcpConfig::default();
    assert_eq!(config.mtu, 1165);
    assert_eq!(config.nodelay, KcpNoDelayConfig::fastest());
    assert_eq!(config.wnd_size, (2048, 2048));
    assert_eq!(config.session_expire_secs, Some(90));
    assert!(!config.allow_recv_empty_packet);
}

fn status(wait_snd: usize) -> KcpStatus {
    KcpStatus {
        wait_snd,
        snd_wnd: 4,
        rmt_wnd: 8,
        waiting_conv: false,
        mss: 10,
        peek: None,
    }
}

#[test]
fn senders_wait_while_a_window_is_full() {
    let mut socket = KcpSocket::new(&KcpConfig::default(), 0);
    assert_eq!(socket.poll_send(&status(9), 5), SendStep::Send { len: 5 });
    assert!(socket.sent(&status(9)));
    assert!(socket.settle_send(3));
    assert_eq!(socket.last_update, 3);
    assert_eq!(socket.poll_send(&status(4), 5), SendStep::Wait);
    assert_eq!(
        socket.try_wake_pending_waker(&status(4)),
        Woken {
            sender: false,
            receiver: false,
        }
    );
    assert_eq!(
        socket.try_wake_pending_waker(&status(3)),
        Woken {
            sender: true,
            receiver: false,
        }
    );
    assert_eq!(socket.poll_send(&status(3), 5), SendStep::Send { len: 5 });
    assert!(status(4).need_flush());
    assert!(status(0).can_close());
    socket.close();
    assert_eq!(socket.poll_send(&status(0), 5), SendStep::BrokenPipe);
}

#[test]
fn the_first_packet_asks_for_an_id() {
    let mut socket = KcpSocket::new(&KcpConfig::default(), 0);
    let asking = KcpStatus {
        waiting_conv: true,
        ..status(0)
    };
    assert_eq!(socket.poll_send(&asking, 50), SendStep::Send { len: 10 });
    socket.sent(&asking);
    assert_eq!(socket.poll_send(&asking, 50), SendStep::Wait);
    assert_eq!(
        socket.input(InputOutcome::Inconsistent, 8),
        InputResult::Ignored
    );
    assert_eq!(socket.input(InputOutcome::Failed, 8), InputResult::Failed);
    assert_eq!(socket.last_update, 0);
    assert_eq!(
        socket.input(InputOutcome::Taken, 9),
        InputResult::Taken { flush: true }
    );
    assert_eq!(socket.last_update, 9);
}

#[test]
fn receivers_skip_empty_messages() {
    let mut socket = KcpSocket::new(&KcpConfig::default(), 0);
    assert_eq!(
        socket.poll_recv(RecvOutcome::Bytes { len: 0 }, 5),
        RecvStep::Wait
    );
    assert!(socket.pending_receiver);
    let ready = KcpStatus {
        peek: Some(3),
        ..status(0)
    };
    assert!(socket.try_wake_pending_waker(&ready).receiver);
    assert_eq!(
        socket.poll_recv(RecvOutcome::Bytes { len: 3 }, 6),
        RecvStep::Bytes { len: 3 }
    );
    assert_eq!(socket.last_update, 6);
    assert_eq!(socket.poll_recv(RecvOutcome::Failed, 7), RecvStep::Fail);
    assert_eq!(socket.poll_recv(RecvOutcome::NotReady, 7), RecvStep::Wait);
    assert_eq!(
        socket.close(),
        Woken {
            sender: false,
            receiver: true,
        }
    );
    assert!(socket.reads_nothing());
    assert_eq!(
        socket.poll_recv(RecvOutcome::NotReady, 7),
        RecvStep::Bytes { len: 0 }
    );
}

fn headed(conv: u32, len: usize) -> Vec<u8> {
    let mut packet = conv.to_le_bytes().to_vec();
    packet.resize(len, 0xff);
    packet
}

#[test]
fn input_of_a_session() {
    assert_eq!(KCP_OVERHEAD, kcp::KCP_OVERHEAD);
    assert_eq!(take_input(&headed(1, 23), 1, false), InputStep::TooShort);
    assert_eq!(
        take_input(&headed(1, 24), 1, false),
        InputStep::Input { set_conv: None }
    );
    assert_eq!(
        take_input(&headed(0x0403_0201, 24), 1, false),
        InputStep::Input {
            set_conv: Some(0x0403_0201),
        }
    );
    assert_eq!(
        take_input(&headed(2, 24), 1, true),
        InputStep::Input { set_conv: None }
    );
}

#[test]
fn settings_of_a_tunnel() {
    let mut cli = TunnelCliConfig {
        endpoint: false,
        listen: None,
        send: None,
        key: None,
    };
    let mut file = TunnelFileConfig {
        endpoint: None,
        listen: None,
        send: None,
        key: None,
    };
    let settings = tunnel_settings(cli.clone(), file.clone());
    assert!(!settings.endpoint);
    assert_eq!(settings.listen, "[::0]:8443");
    assert_eq!(settings.send, ["[::1]:8443"]);
    assert_eq!(
        settings.key,
        blake3::derive_key("RayNet PSK v1", b"19260817")[..16]
    );
    file.endpoint = Some(true);
    file.listen = Some("there".to_string());
    file.send = Some(vec!["a".to_string(), "b".to_string()]);
    file.key = Some("file".to_string());
    cli.listen = Some("here".to_string());
    let settings = tunnel_settings(cli.clone(), file.clone());
    assert!(settings.endpoint);
    assert_eq!(settings.listen, "here");
    assert_eq!(settings.send, ["a", "b"]);
    assert_eq!(
        settings.key,
        blake3::derive_key("RayNet PSK v1", b"file")[..16]
    );
    cli.send = Some(Vec::new());
    assert!(tunnel_settings(cli, file).send.is_empty());
}

#[test]
fn silent_sessions_expire() {
    let limit = Some(30_000_000_000);
    let run = UpdateStep::Update {
        close: false,
        flush: false,
    };
    assert_eq!(plan_update(false, &status(0), false, 1, limit), run);
    assert_eq!(
        plan_update(false, &status(0), false, 30_000_000_001, limit),
        UpdateStep::Update {
            close: true,
            flush: false,
        }
    );
    assert_eq!(
        plan_update(false, &status(4), false, 60_000_000_001, limit),
        UpdateStep::Stop
    );
    assert_eq!(
        plan_update(true, &status(0), false, 1, limit),
        UpdateStep::Stop
    );
    assert_eq!(
        plan_update(true, &status(4), true, u128::MAX, limit),
        UpdateStep::Update {
            close: false,
            flush: true,
        }
    );
    assert_eq!(next_update(100, Some(7)), 107);
    assert_eq!(next_update(100, None), 110);
}

#[test]
fn messages_are_delivered_one_by_one() {
    assert_eq!(begin_delivery(0), Delivery::Peeking);
    let state = begin_delivery(5);
    assert_eq!(state, Delivery::Sending { size: 5 });
    let state = deliver(state, DeliveryEvent::Sent);
    assert_eq!(state, Delivery::Peeking);
    let state = deliver(state, DeliveryEvent::Peeked { size: Some(9) });
    assert_eq!(state, Delivery::Reading { size: 9 });
    let state = deliver(state, DeliveryEvent::Read { size: Some(9) });
    assert_eq!(state, Delivery::Offering { size: 9 });
    assert_eq!(
        deliver(state, DeliveryEvent::Full),
        Delivery::Done { size: 9 }
    );
    assert_eq!(deliver(state, DeliveryEvent::Closed), Delivery::Broken);
    let state = deliver(state, DeliveryEvent::Accepted);
    assert_eq!(
        deliver(state, DeliveryEvent::Peeked { size: None }),
        Delivery::Done { size: 0 }
    );
    assert_eq!(
        deliver(Delivery::Sending { size: 1 }, DeliveryEvent::SendFailed),
        Delivery::Broken
    );
}

fn checked(wait_snd: usize, elapsed_ns: u128) -> Turn {
    Turn::Checked {
        closed: false,
        is_closed: false,
        kcp: status(wait_snd),
        elapsed_ns,
    }
}

fn delivered(event: DeliveryEvent) -> Turn {
    Turn::Delivered { event }
}

#[test]
fn updater_goes_round() {
    let mut updater = Updater::new(true, None);
    assert!(!updater.advance(checked(4, 1)));
    assert_eq!(updater.phase, Phase::Flush);
    updater.advance(Turn::Woken);
    assert_eq!(updater.phase, Phase::Flush);
    updater.advance(Turn::Flushed);
    assert_eq!(updater.phase, Phase::Update);
    updater.advance(Turn::Updated {
        now_ms: 100,
        asked_ms: Some(7),
    });
    assert_eq!(
        updater.phase,
        Phase::Deliver {
            delivery: Delivery::Peeking,
            until_ms: 107,
        }
    );
    updater.advance(delivered(DeliveryEvent::Peeked { size: None }));
    assert_eq!(updater.phase, Phase::Wait { until_ms: 107 });
    updater.advance(Turn::Woken);
    assert_eq!(updater.phase, Phase::Check);
    updater.advance(checked(0, 1));
    assert_eq!(updater.phase, Phase::Update);
}

#[test]
fn updater_keeps_what_the_connection_has_no_room_for() {
    let mut updater = Updater::new(true, None);
    let updated = Turn::Updated {
        now_ms: 100,
        asked_ms: None,
    };
    updater.advance(checked(0, 1));
    updater.advance(updated);
    updater.advance(delivered(DeliveryEvent::Peeked { size: Some(9) }));
    updater.advance(delivered(DeliveryEvent::Read { size: Some(9) }));
    updater.advance(delivered(DeliveryEvent::Full));
    assert_eq!(updater.phase, Phase::Wait { until_ms: 110 });
    assert_eq!(updater.held, 9);
    updater.advance(Turn::Woken);
    updater.advance(checked(0, 1));
    updater.advance(updated);
    assert_eq!(
        updater.phase,
        Phase::Deliver {
            delivery: Delivery::Sending { size: 9 },
            until_ms: 110,
        }
    );
    let mut broken = updater;
    broken.advance(delivered(DeliveryEvent::SendFailed));
    assert_eq!(broken.phase, Phase::Stopped);
    updater.advance(delivered(DeliveryEvent::Sent));
    updater.advance(delivered(DeliveryEvent::Peeked { size: None }));
    assert_eq!(updater.phase, Phase::Wait { until_ms: 110 });
    assert_eq!(updater.held, 0);
}

#[test]
fn updater_ends_with_its_session() {
    let limit = Some(30_000_000_000);
    let mut updater = Updater::new(false, limit);
    assert!(updater.advance(checked(0, 30_000_000_001)));
    assert_eq!(updater.phase, Phase::Update);

    let mut updater = Updater::new(false, limit);
    assert!(!updater.advance(checked(4, 60_000_000_001)));
    assert_eq!(updater.phase, Phase::Stopped);
    assert!(!updater.advance(checked(0, 1)));
    assert_eq!(updater.phase, Phase::Stopped);

    let mut updater = Updater::new(true, limit);
    assert!(!updater.advance(checked(0, u128::MAX)));
    assert_eq!(updater.phase, Phase::Update);

    let mut updater = Updater::new(true, None);
    updater.advance(Turn::Checked {
        closed: true,
        is_closed: true,
        kcp: status(4),
        elapsed_ns: 1,
    });
    assert_eq!(updater.phase, Phase::Stopped);
}

#[test]
fn bytes_are_served_after_the_writer_is_gone() {
    let mut table = Connections::new();
    table.insert(10);
    assert_eq!(
        table.on_write(10, 5, WriteOutcome::Failed),
        WriteStep::Stop { closed: None }
    );
    assert_eq!(
        table.on_read(10, ReadOutcome::WouldBlock, 77),
        ReadStep::Sleep
    );
    assert_eq!(
        table.on_read(10, ReadOutcome::Bytes { len: 3 }, 77),
        ReadStep::Send {
            conv: 77,
            opened: true,
        }
    );
}

#[test]
fn connections_and_sessions_go_together() {
    let mut table = Connections::new();
    table.insert(10);
    table.insert(20);
    assert_eq!(
        table.on_read(10, ReadOutcome::Bytes { len: 3 }, 77),
        ReadStep::Send {
            conv: 77,
            opened: true,
        }
    );
    assert_eq!(
        table.on_read(10, ReadOutcome::Bytes { len: 3 }, 78),
        ReadStep::Send {
            conv: 77,
            opened: false,
        }
    );
    assert_eq!(
        table.on_read(10, ReadOutcome::WouldBlock, 78),
        ReadStep::Sleep
    );
    assert_eq!(
        table.on_datagram(&headed(77, 24), &vec![]),
        DatagramStep::Input { conv: 77, addr: 10 }
    );
    assert_eq!(
        table.on_datagram(&headed(5, 30), &vec![]),
        DatagramStep::Open {
            conv: 5,
            made: Assigned {
                addr: 20,
                replaced: None,
            },
        }
    );
    assert_eq!(
        table.on_datagram(&headed(6, 24), &vec![]),
        DatagramStep::NoSpare
    );
    assert_eq!(
        table.on_datagram(&headed(6, 24), &vec![77]),
        DatagramStep::Open {
            conv: 6,
            made: Assigned {
                addr: 10,
                replaced: Some(77),
            },
        }
    );
    assert_eq!(table.get_from_conv(77), None);
    assert_eq!(table.get_from_addr(10), Some(6));
    assert_eq!(
        table.on_write(10, 8, WriteOutcome::Wrote { len: 3 }),
        WriteStep::Again { rest: 5 }
    );
    assert_eq!(
        table.on_write(10, 5, WriteOutcome::Wrote { len: 5 }),
        WriteStep::Done
    );
    assert_eq!(
        table.on_write(10, 5, WriteOutcome::WouldBlock),
        WriteStep::Sleep
    );
    assert_eq!(
        table.on_write(10, 5, WriteOutcome::Failed),
        WriteStep::Stop { closed: Some(6) }
    );
    assert!(!table.contains(10));
    assert_eq!(
        table.on_read(20, ReadOutcome::End, 1),
        ReadStep::Stop { closed: Some(5) }
    );
    assert!(!table.contains(20));
    assert_eq!(table.close(20), None);
}

#[test]
fn inbox_counts_by_source() {
    let mut inbox = Inbox::new();
    let data = Ok(packet(RayPacketType::DataPacket, &[1]));
    let request = Ok(packet(RayPacketType::StatRequest, &[]));
    let now = 100 * BUCKET_LENGTH;
    assert_eq!(inbox.receive(1, &data, now), InboxStep::Process);
    assert_eq!(inbox.receive(1, &data, now + 1), InboxStep::Process);
    assert_eq!(
        inbox.receive(2, &request, now + 2),
        InboxStep::Respond { count: Some(1) }
    );
    assert_eq!(
        inbox.receive(1, &request, now + 3),
        InboxStep::Respond { count: Some(3) }
    );
    assert_eq!(
        inbox.receive(1, &request, now + WINDOW_NANOS + 2 * BUCKET_LENGTH),
        InboxStep::Respond { count: Some(1) }
    );
}

#[test]
fn inbox_refuses_what_it_cannot_open() {
    let mut inbox = Inbox::new();
    assert_eq!(
        inbox.receive(1, &Err(RayPacketError::NonceReuseError), 5),
        InboxStep::Duplicate
    );
    assert_eq!(
        inbox.receive(1, &Err(RayPacketError::DecryptError), 5),
        InboxStep::Invalid
    );
    assert_eq!(
        inbox.receive(1, &Err(RayPacketError::BufLengthError), 5),
        InboxStep::Invalid
    );
    assert_eq!(
        inbox.receive(1, &Ok(packet(RayPacketType::StatRequest, &[])), 5),
        InboxStep::Respond { count: Some(1) }
    );
}

#[test]
fn inbox_takes_no_stale_response() {
    let mut inbox = Inbox::new();
    let response = Ok(packet(RayPacketType::StatResponse, &[]));
    assert_eq!(inbox.receive(1, &response, 5), InboxStep::Answered);
    assert!(inbox.take_response(0));
    assert!(inbox.take_response(3));
    assert!(inbox.take_response(3));
    assert!(!inbox.take_response(2));
    assert!(inbox.take_response(4));
}

#[test]
fn counter_shows_the_last_buckets() {
    let start = 1_000 * BUCKET_LENGTH;
    let mut counter = TimedCounter::new(start);
    let adds = [(0, 1), (5, 2), (62, 4), (63, 8), (64, 16), (130, 32)];
    for (i, (bucket, count)) in adds.iter().enumerate() {
        counter.add(start + bucket * BUCKET_LENGTH + 7, *count);
        let shown: u32 = adds[..=i]
            .iter()
            .filter(|(other, _)| bucket - other <= 63)
            .map(|(_, count)| *count)
            .sum();
        assert_eq!(counter.get(start + bucket * BUCKET_LENGTH + 7), shown);
    }
}
