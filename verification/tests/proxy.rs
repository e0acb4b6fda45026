use raynet::machine::CloseReason;
use raynet::probe::{
    challenge_key, make_probe, make_response, probe_with, response_with, valid_probe,
    valid_response, Challenges, Peers,
};
use raynet::proxy::message::ProxyMessage;
use raynet::proxy::socks5::{
    entry_answer, exit_connected, exit_refused, exit_request, reply, target, BoundAddress,
    EntryStep, ExitStep, Handshake, HandshakeStep, TargetAddress, Transfer, TransferRead,
    TransferStep,
};

fn run(stream: &[u8]) -> (Vec<u8>, Option<Vec<u8>>) {
    let mut handshake = Handshake::new();
    let mut at = 0;
    let mut sent = Vec::new();
    loop {
        let end = at + handshake.wants();
        let bytes = stream[at..end].to_vec();
        at = end;
        match handshake.step(bytes) {
            HandshakeStep::Continue { reply, next } => {
                sent.extend(reply);
                handshake = next;
            }
            HandshakeStep::Refuse { reply } => {
                sent.extend(reply);
                return (sent, None);
            }
            HandshakeStep::Request { request } => return (sent, Some(request)),
        }
    }
}

#[test]
fn handshakes_that_succeed() {
    let (sent, request) = run(&[5, 1, 0, 5, 1, 0, 1, 127, 0, 0, 1, 0x1f, 0x90]);
    assert_eq!(sent, [5, 0]);
    assert_eq!(
        target(&request.unwrap()),
        Some(TargetAddress::V4 {
            octets: vec![127, 0, 0, 1],
            port: 8080,
        })
    );
    let (_, request) = run(&[5, 2, 7, 0, 5, 1, 0, 3, 2, b'h', b'i', 0, 80]);
    assert_eq!(
        target(&request.unwrap()),
        Some(TargetAddress::Domain {
            name: "hi".to_string(),
            port: 80,
        })
    );
    let mut stream = vec![5, 1, 0, 5, 1, 0, 4];
    stream.extend([1; 16]);
    stream.extend([0, 1]);
    let (_, request) = run(&stream);
    assert_eq!(
        target(&request.unwrap()),
        Some(TargetAddress::V6 {
            octets: vec![1; 16],
            port: 1,
        })
    );
}

#[test]
fn handshakes_that_fail() {
    assert_eq!(run(&[4, 1, 0]), (vec![5, 0xff], None));
    assert_eq!(run(&[5, 1, 2]), (vec![5, 0xff], None));
    assert_eq!(run(&[5, 0]), (vec![5, 0xff], None));
    let (sent, request) = run(&[5, 1, 0, 5, 2, 0, 1]);
    assert_eq!(sent, [5, 0, 5, 7, 0, 1, 0, 0, 0, 0, 0, 0]);
    assert_eq!(request, None);
    let (sent, _) = run(&[5, 1, 0, 5, 1, 0, 9]);
    assert_eq!(sent, [5, 0, 5, 8, 0, 1, 0, 0, 0, 0, 0, 0]);
}

#[test]
fn requests_without_a_target() {
    assert_eq!(target(&[5, 1]), None);
    assert_eq!(target(&[5, 2, 0, 1, 127, 0, 0, 1, 0, 80]), None);
    assert_eq!(target(&[5, 1, 0, 1, 127, 0, 0, 1, 0]), None);
    assert_eq!(target(&[5, 1, 0, 3, 1, 0xff, 0, 80]), None);
    assert_eq!(target(&[5, 1, 0, 3, 2, b'a', 0, 80]), None);
}

#[test]
fn replies_name_an_address() {
    assert_eq!(reply(5, None), [5, 5, 0, 1, 0, 0, 0, 0, 0, 0]);
    assert_eq!(
        reply(
            0,
            Some(BoundAddress::V4 {
                octets: [1, 2, 3, 4],
                port: 258,
            })
        ),
        [5, 0, 0, 1, 1, 2, 3, 4, 1, 2]
    );
    let long = reply(
        0,
        Some(BoundAddress::V6 {
            octets: [9; 16],
            port: 1,
        }),
    );
    assert_eq!(long.len(), 22);
    assert_eq!(long[3], 4);
}

#[test]
fn entries_and_exits() {
    assert_eq!(entry_answer(None), EntryStep::Stop);
    assert_eq!(
        entry_answer(Some(ProxyMessage::Write(vec![5]))),
        EntryStep::Fail
    );
    assert_eq!(
        entry_answer(Some(ProxyMessage::Write(vec![5, 0]))),
        EntryStep::Reply {
            reply: vec![5, 0],
            transfer: true,
        }
    );
    assert_eq!(
        entry_answer(Some(ProxyMessage::Write(vec![5, 5]))),
        EntryStep::Reply {
            reply: vec![5, 5],
            transfer: false,
        }
    );
    assert_eq!(
        exit_request(Some(ProxyMessage::Close(CloseReason::Reset))),
        ExitStep::Stop
    );
    assert_eq!(
        exit_request(Some(ProxyMessage::Write(vec![1]))),
        ExitStep::Fail
    );
    assert!(matches!(
        exit_request(Some(ProxyMessage::Write(vec![
            5, 1, 0, 1, 127, 0, 0, 1, 0, 80
        ]))),
        ExitStep::Connect { .. }
    ));
    assert_eq!(
        exit_refused(),
        (
            ProxyMessage::Write(reply(5, None)),
            ProxyMessage::Close(CloseReason::Reset)
        )
    );
    let bound = BoundAddress::V4 {
        octets: [1, 1, 1, 1],
        port: 9,
    };
    assert_eq!(
        exit_connected(bound),
        ProxyMessage::Write(reply(0, Some(bound)))
    );
}

#[test]
fn transfers_end_when_both_directions_have() {
    let mut transfer = Transfer::new(CloseReason::LocalClosed);
    assert_eq!(
        transfer.on_message(Some(ProxyMessage::Write(vec![1]))),
        TransferStep::WriteAll { bytes: vec![1] }
    );
    assert_eq!(
        transfer.on_read(TransferRead::Bytes { bytes: vec![2] }),
        TransferStep::Emit { bytes: vec![2] }
    );
    assert_eq!(
        transfer.on_read(TransferRead::End),
        TransferStep::Emit { bytes: vec![] }
    );
    assert_eq!(transfer.finished(), None);
    assert_eq!(
        transfer.on_message(Some(ProxyMessage::Write(vec![]))),
        TransferStep::Shutdown
    );
    assert_eq!(
        transfer.finished(),
        Some(ProxyMessage::Close(CloseReason::LocalClosed))
    );
    assert_eq!(transfer.on_message(None), TransferStep::Stop);
    assert_eq!(transfer.on_read(TransferRead::Failed), TransferStep::Fail);
}

#[test]
fn probes_are_answered_under_the_same_key() {
    let key = challenge_key(&[42; 32]);
    assert_eq!(
        key,
        blake3::derive_key("RayNet reverse UDP challenge key v1", &[42; 32])
    );
    let other = challenge_key(&[7; 32]);
    let probe = make_probe(&key);
    assert!(valid_probe(&probe, &key));
    assert!(!valid_probe(&probe, &other));
    assert!(!valid_probe(&probe[..31], &key));
    let challenge: [u8; 16] = probe[..16].try_into().unwrap();
    let response = make_response(&key, &challenge);
    assert!(valid_response(&response, &key, &challenge));
    assert!(!valid_response(&response, &other, &challenge));
    assert!(!valid_response(&response, &key, &[0; 16]));
    assert!(!valid_response(&probe, &key, &challenge));
    let fixed = probe_with(&key, &[3; 16]);
    let mut hasher = blake3::Hasher::new_keyed(&key);
    hasher.update(&[0]);
    hasher.update(&[3; 16]);
    assert_eq!(fixed[16..], hasher.finalize().as_bytes()[..16]);
    let fixed = response_with(&key, &[3; 16], &[4; 16]);
    let mut hasher = blake3::Hasher::new_keyed(&key);
    hasher.update(&[1]);
    hasher.update(&[3; 16]);
    hasher.update(&[4; 16]);
    assert_eq!(fixed[16..], hasher.finalize().as_bytes()[..16]);
}

#[test]
fn senders_remember_receivers_for_a_minute() {
    let key = challenge_key(&[42; 32]);
    let mut peers = Peers::new();
    assert!(Peers::answer(&key, &[0; 32]).is_none());
    assert!(Peers::answer(&key, &make_probe(&key)).is_some());
    assert!(peers.paths(0).is_empty());
    peers.answered(7, 1_000);
    peers.answered(3, 30_000);
    assert_eq!(peers.paths(60_999), vec![3, 7]);
    assert_eq!(peers.paths(61_000), vec![3]);
    assert_eq!(peers.paths(90_000), Vec::<u64>::new());
}

#[test]
fn receivers_tell_responses_from_packets() {
    let key = challenge_key(&[42; 32]);
    let mut challenges = Challenges::new();
    let probe = challenges.probe(&key, 5);
    let response = Peers::answer(&key, &probe).unwrap();
    assert!(challenges.take(&key, 6, &response));
    assert!(challenges.take(&key, 5, b"packet"));
    assert!(!challenges.take(&key, 5, &response));
    assert!(challenges.take(&key, 5, &response));
}
