use raynet::machine::{ChannelId, CloseReason, ConvId, CoreEvent};
use raynet::sim::link::{DownWindow, LossModel, SimLink, SimNodeId};
use raynet::sim::network::{Network, SendOutcome, SimStep, TestMetrics};
use raynet::sim::node::advance_seed;
use raynet::sim::setup::{endpoint_config, kcp_config, relay_config, route_edge, route_graph};
use raynet::sim::shell::{SimNode, TestShell};

const ENVELOPE_KEY: [u8; 16] = [5; 16];
const MESSAGE_KEY: [u8; 16] = [7; 16];

fn link(
    from_node: SimNodeId,
    from_channel_id: ChannelId,
    to_node: SimNodeId,
    to_channel_id: ChannelId,
) -> SimLink {
    SimLink {
        from_node,
        from_channel_id,
        to_node,
        to_channel_id,
        latency_ms: 5,
        bandwidth_bytes_per_ms: 100,
        loss: LossModel::Lossless,
        extra_delay_ms: 0,
        down_windows: Vec::new(),
    }
}

#[test]
fn echo_uses_the_selected_multihop_route() {
    let mut shell = TestShell::new();
    shell.add_endpoint(
        1,
        endpoint_config(
            ENVELOPE_KEY,
            MESSAGE_KEY,
            [1; 16],
            0,
            vec![11, 12],
            route_graph(vec![
                vec![route_edge(11, 1), route_edge(12, 2)],
                vec![route_edge(21, 3)],
                vec![route_edge(31, 3)],
                vec![],
            ]),
            kcp_config(),
        ),
        false,
    );
    shell.add_relay(2, relay_config(ENVELOPE_KEY, [2; 16], 0, vec![21, 51]));
    shell.add_relay(3, relay_config(ENVELOPE_KEY, [3; 16], 0, vec![31]));
    shell.add_endpoint(
        4,
        endpoint_config(
            ENVELOPE_KEY,
            MESSAGE_KEY,
            [4; 16],
            0,
            vec![41],
            route_graph(vec![
                vec![route_edge(41, 1)],
                vec![route_edge(51, 2)],
                vec![],
            ]),
            kcp_config(),
        ),
        true,
    );
    let mut broken = link(1, 11, 2, 201);
    broken.down_windows.push(DownWindow {
        start_ms: 0,
        end_ms: u64::MAX,
    });
    shell.add_link(broken);
    shell.add_link(link(2, 21, 4, 401));
    shell.add_link(link(1, 12, 3, 301));
    shell.add_link(link(3, 31, 4, 401));
    shell.add_link(link(4, 41, 2, 202));
    shell.add_link(link(2, 51, 1, 101));
    shell.add_link(link(4, 41, 3, 302));
    shell.add_link(link(3, 61, 1, 101));
    let conv = shell.open_session(1);
    shell.run_until_idle(128);
    shell.send_session_bytes(1, conv, b"route".to_vec());
    shell.run_until_idle(256);
    assert_eq!(shell.session_bytes(1, conv), Some(&b"route".to_vec()));
    assert_eq!(shell.delivered_on(1, 11), 0);
    assert!(shell.delivered_on(1, 12) > 0);
}

#[test]
fn loss_recovers_and_replay_is_not_forwarded_twice() {
    let mut shell = TestShell::new();
    shell.add_endpoint(
        1,
        endpoint_config(
            ENVELOPE_KEY,
            MESSAGE_KEY,
            [1; 16],
            0,
            vec![11],
            route_graph(vec![
                vec![route_edge(11, 1)],
                vec![route_edge(21, 2)],
                vec![],
            ]),
            kcp_config(),
        ),
        false,
    );
    shell.add_relay(2, relay_config(ENVELOPE_KEY, [2; 16], 0, vec![21, 41]));
    shell.add_endpoint(
        3,
        endpoint_config(
            ENVELOPE_KEY,
            MESSAGE_KEY,
            [3; 16],
            0,
            vec![31],
            route_graph(vec![
                vec![route_edge(31, 1)],
                vec![route_edge(41, 2)],
                vec![],
            ]),
            kcp_config(),
        ),
        true,
    );
    shell.add_link(link(1, 11, 2, 201));
    shell.add_link(link(2, 21, 3, 301));
    shell.add_link(link(3, 31, 2, 202));
    shell.add_link(link(2, 41, 1, 101));
    let conv = shell.open_session(1);
    shell.run_until_idle(128);
    let forwarded = shell.delivered_on(2, 21);
    assert!(shell.replay_last_packet(1, 11));
    shell.run_until_idle(32);
    assert_eq!(shell.delivered_on(2, 21), forwarded);
    shell.send_session_bytes(1, conv, b"hello".to_vec());
    shell.run_until_idle(256);
    assert_eq!(shell.session_bytes(1, conv), Some(&b"hello".to_vec()));
}

#[test]
fn scaled_kcp_recovers_after_a_slow_link_returns() {
    let mut shell = TestShell::new();
    let fast = kcp_config();
    let mut slow = kcp_config();
    slow.send_window = 96;
    slow.receive_window = 256;
    slow.time_scale = 5;
    shell.add_endpoint(
        1,
        endpoint_config(
            ENVELOPE_KEY,
            MESSAGE_KEY,
            [8; 16],
            0,
            vec![11],
            route_graph(vec![vec![route_edge(11, 1)], vec![]]),
            fast,
        ),
        false,
    );
    shell.add_endpoint(
        2,
        endpoint_config(
            ENVELOPE_KEY,
            MESSAGE_KEY,
            [9; 16],
            0,
            vec![21],
            route_graph(vec![vec![route_edge(21, 1)], vec![]]),
            slow,
        ),
        true,
    );
    let mut forward = link(1, 11, 2, 21);
    forward.latency_ms = 30;
    forward.bandwidth_bytes_per_ms = 10;
    forward.down_windows.push(DownWindow {
        start_ms: 0,
        end_ms: 55,
    });
    shell.add_link(forward);
    shell.add_link(link(2, 21, 1, 11));
    let conv = shell.open_session(1);
    shell.run_until_idle(1024);
    shell.send_session_bytes(1, conv, b"retry".to_vec());
    shell.run_until_idle(1024);
    assert_eq!(shell.session_bytes(1, conv), Some(&b"retry".to_vec()));
    assert!(shell.metrics().dropped_packets > 0);
}

#[test]
fn restart_uses_fresh_seed_and_continuous_global_time() {
    let mut shell = TestShell::new();
    shell.add_relay(1, relay_config(ENVELOPE_KEY, [1; 16], 100, vec![11]));
    shell.advance_to(5_000);
    shell.restart_node(1);

    let Some(SimNode::Relay(relay)) = shell.node(1) else {
        panic!("node remains a relay");
    };
    assert_eq!(relay.config.boot_time_ms, 5_100);
    assert_ne!(relay.config.random_seed, [1; 16]);
    assert_eq!(relay.started_at_sim_ms, 5_000);
    assert_eq!(shell.elapsed(1), 0);
}

#[test]
fn close_retransmits_after_first_close_is_dropped() {
    let mut shell = TestShell::new();
    let mut kcp = kcp_config();
    kcp.time_scale = 1;
    shell.add_endpoint(
        1,
        endpoint_config(
            ENVELOPE_KEY,
            MESSAGE_KEY,
            [11; 16],
            0,
            vec![11],
            route_graph(vec![vec![route_edge(11, 1)], vec![]]),
            kcp,
        ),
        false,
    );
    shell.add_endpoint(
        2,
        endpoint_config(
            ENVELOPE_KEY,
            MESSAGE_KEY,
            [22; 16],
            0,
            vec![21],
            route_graph(vec![vec![route_edge(21, 1)], vec![]]),
            kcp_config(),
        ),
        true,
    );
    shell.add_link(link(1, 11, 2, 21));
    shell.add_link(link(2, 21, 1, 11));

    let conv = shell.open_session(1);
    shell.run_until_idle(256);
    assert!(shell.has_session(2, conv), "remote should open");
    assert_eq!(shell.active_sessions(1), 1);
    assert_eq!(shell.active_sessions(2), 1);

    shell.close_session(1, conv, CloseReason::LocalClosed);
    let dropped = shell.drop_queued_from(1, 11);
    assert!(dropped > 0, "close should produce at least one packet");
    assert_eq!(
        shell.active_sessions(1),
        1,
        "local must keep session while close is unacked"
    );

    shell.run_until_idle(10_000);

    assert_eq!(
        shell.active_sessions(1),
        0,
        "local should finish after retransmit/ack now={} dropped={}",
        shell.now_ms(),
        shell.metrics().dropped_packets
    );
    assert_eq!(shell.active_sessions(2), 0, "remote must not leak session");
    assert!(!shell.has_session(1, conv));
    assert!(!shell.has_session(2, conv));
}

fn deterministic_run() -> (ConvId, TestMetrics, Option<Vec<u8>>) {
    let mut shell = TestShell::new();
    shell.add_endpoint(
        1,
        endpoint_config(
            ENVELOPE_KEY,
            MESSAGE_KEY,
            [42; 16],
            0,
            vec![11],
            route_graph(vec![vec![route_edge(11, 1)], vec![]]),
            kcp_config(),
        ),
        false,
    );
    shell.add_endpoint(
        2,
        endpoint_config(
            ENVELOPE_KEY,
            MESSAGE_KEY,
            [43; 16],
            0,
            vec![21],
            route_graph(vec![vec![route_edge(21, 1)], vec![]]),
            kcp_config(),
        ),
        true,
    );
    shell.add_link(link(1, 11, 2, 21));
    shell.add_link(link(2, 21, 1, 11));
    let conv = shell.open_session(1);
    shell.run_until_idle(256);
    shell.send_session_bytes(1, conv, b"det".to_vec());
    shell.run_until_idle(256);
    (
        conv,
        shell.metrics(),
        shell.session_bytes(1, conv).map(|bytes| bytes.to_vec()),
    )
}

#[test]
fn same_seed_is_deterministic() {
    assert_eq!(deterministic_run(), deterministic_run());
}

#[test]
fn seeded_bernoulli_loss_is_deterministic() {
    let mut first = link(1, 11, 2, 21);
    first.loss = LossModel::Bernoulli {
        loss_ppm: 100_000,
        seed: 42,
    };
    let second = first.clone();
    let first_outcomes = (1..=10_000)
        .map(|attempt| first.should_drop(attempt))
        .collect::<Vec<_>>();
    let second_outcomes = (1..=10_000)
        .map(|attempt| second.should_drop(attempt))
        .collect::<Vec<_>>();
    assert_eq!(first_outcomes, second_outcomes);
    let dropped = first_outcomes
        .into_iter()
        .filter(|dropped| *dropped)
        .count();
    assert!((900..=1_100).contains(&dropped));
}

#[test]
fn malformed_packet_does_not_create_session_state() {
    let mut shell = TestShell::new();
    shell.add_endpoint(
        1,
        endpoint_config(
            ENVELOPE_KEY,
            MESSAGE_KEY,
            [1; 16],
            0,
            vec![11],
            route_graph(vec![vec![route_edge(11, 1)], vec![]]),
            kcp_config(),
        ),
        false,
    );
    shell.handle_event(
        1,
        CoreEvent::TransportPacketReceived {
            channel_id: 11,
            bytes: vec![0u8; 64],
        },
    );
    assert_eq!(shell.active_sessions(1), 0);
}

#[test]
fn every_nth_packet_is_lost() {
    let mut lossy = link(1, 11, 2, 21);
    lossy.loss = LossModel::Every { packets: 3 };
    let outcomes: Vec<bool> = (1..=7).map(|attempt| lossy.should_drop(attempt)).collect();
    assert_eq!(
        outcomes,
        vec![false, false, true, false, false, true, false]
    );
    lossy.loss = LossModel::Every { packets: 0 };
    assert!(!lossy.should_drop(5));
}

#[test]
fn packets_queue_behind_each_other() {
    let mut network = Network::new();
    network.add_link(link(1, 11, 2, 21));
    assert_eq!(network.send(1, 11, vec![0; 1000]), SendOutcome::Queued);
    assert_eq!(network.send(1, 11, vec![1; 50]), SendOutcome::Queued);
    assert_eq!(
        network.send(1, 12, vec![3]),
        SendOutcome::Failed { bytes: vec![3] }
    );
    assert_eq!(network.attempted_on(1, 11), 2);
    assert_eq!(
        network.next_step(Some((9, 3))),
        SimStep::Poll { node: 9 }
    );
    assert_eq!(network.now_ms(), 3);
    let SimStep::Deliver { packet } = network.next_step(None) else {
        panic!("a packet");
    };
    assert_eq!(packet.due_ms, 15);
    let SimStep::Deliver { packet } = network.next_step(None) else {
        panic!("a packet");
    };
    assert_eq!(packet.due_ms, 16);
    assert_eq!(network.delivered_on(1, 11), 2);
    assert_eq!(network.next_step(None), SimStep::Idle);
    assert_eq!(
        network.next_step(Some((9, 3))),
        SimStep::Poll { node: 9 }
    );
    assert_eq!(network.now_ms(), 17);
}

#[test]
fn seeds_count_up() {
    let mut seed = [255; 16];
    seed[2] = 7;
    advance_seed(&mut seed);
    let mut expected = [255; 16];
    expected[0] = 0;
    expected[1] = 0;
    expected[2] = 8;
    assert_eq!(seed, expected);
}

fn pair(echo_exit: bool) -> TestShell {
    let mut shell = TestShell::default();
    for (node, channel, echo) in [(1, 11, false), (2, 21, echo_exit)] {
        shell.add_endpoint(
            node,
            endpoint_config(
                ENVELOPE_KEY,
                MESSAGE_KEY,
                [node as u8; 16],
                0,
                vec![channel],
                route_graph(vec![vec![route_edge(channel, 1)], vec![]]),
                kcp_config(),
            ),
            echo,
        );
    }
    shell.add_link(link(1, 11, 2, 21));
    shell.add_link(link(2, 21, 1, 11));
    shell
}

#[test]
fn refusals_come_to_an_end() {
    let mut shell = TestShell::new();
    shell.add_endpoint(
        1,
        endpoint_config(
            ENVELOPE_KEY,
            MESSAGE_KEY,
            [1; 16],
            0,
            vec![11, 12],
            route_graph(vec![vec![route_edge(11, 1), route_edge(12, 1)], vec![]]),
            kcp_config(),
        ),
        false,
    );
    let conv = shell.open_session(1);
    assert!(!shell.is_halted());
    assert!(shell.has_session(1, conv));
    assert_eq!(shell.metrics().sent_packets, 2);
    assert_eq!(shell.metrics().dropped_packets, 2);
    assert_eq!(shell.now_ms(), 0);
}

#[test]
fn blocked_write_waits_and_goes_out() {
    let mut shell = pair(false);
    let conv = shell.open_session(1);
    shell.run_until_idle(256);
    let mut writes: usize = 1;
    while shell.send_session_bytes(1, conv, vec![writes as u8; 900]) {
        writes += 1;
        assert!(writes < 1000);
    }
    assert!(!shell.is_halted());
    shell.run_until_idle(10_000);
    let received = shell.session_bytes(2, conv).unwrap();
    assert_eq!(received.len(), writes * 900);
    assert_eq!(received.last(), Some(&(writes as u8)));
    assert_eq!(shell.metrics().delivered_local_bytes, writes as u64 * 900);
}

#[test]
fn unexpected_write_halts_the_shell() {
    let mut shell = pair(false);
    let conv = shell.open_session(1);
    assert!(!shell.send_session_bytes(1, conv.wrapping_add(1), vec![1]));
    assert!(shell.is_halted());
    let before = shell.metrics();
    shell.run_until_idle(100);
    assert_eq!(shell.metrics(), before);
}

#[test]
fn restarted_endpoint_has_no_sessions() {
    let mut shell = pair(true);
    let conv = shell.open_session(1);
    shell.run_until_idle(256);
    assert!(shell.has_session(2, conv));
    let now = shell.now_ms();
    shell.restart_node(2);
    assert!(!shell.has_session(2, conv));
    assert_eq!(shell.active_sessions(2), 0);
    assert_eq!(shell.elapsed(2), 0);
    assert!(shell.has_session(1, conv));
    let Some(SimNode::Endpoint(endpoint)) = shell.node(2) else {
        panic!("node remains an endpoint");
    };
    assert_eq!(endpoint.config.boot_time_ms, now);
    assert!(shell.node(3).is_none());
    shell.restart_node(3);
}

#[test]
fn echo_comes_back() {
    let mut shell = pair(true);
    let conv = shell.open_session(1);
    shell.run_until_idle(256);
    assert!(shell.send_session_bytes(1, conv, b"there and back".to_vec()));
    shell.run_until_idle(256);
    assert_eq!(
        shell.session_bytes(2, conv),
        Some(&b"there and back".to_vec())
    );
    assert_eq!(
        shell.session_bytes(1, conv),
        Some(&b"there and back".to_vec())
    );
    assert!(shell.attempted_on(1, 11) > 0);
    assert!(!shell.is_halted());
}

#[test]
fn greater_chances_lose_more() {
    let mut lossy = link(1, 11, 2, 21);
    for attempt in 1..=2_000 {
        let mut before = false;
        for loss_ppm in [0, 1_000, 100_000, 500_000, 1_000_000] {
            lossy.loss = LossModel::Bernoulli { loss_ppm, seed: 42 };
            let now = lossy.should_drop(attempt);
            assert!(now || !before);
            assert!(loss_ppm != 0 || !now);
            before = now;
        }
        assert!(before);
    }
}

#[test]
fn halted_shell_stays_halted() {
    let mut shell = pair(false);
    let conv = shell.open_session(1);
    assert!(!shell.send_session_bytes(1, conv.wrapping_add(1), vec![1]));
    assert!(shell.is_halted());
    shell.open_session(1);
    assert!(shell.is_halted());
}
