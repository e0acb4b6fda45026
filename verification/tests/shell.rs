use raynet::hop::endpoint::{CoreAction as HopAction, Metric};
use raynet::hop::wire::CloseReason as HopCloseReason;
use raynet::machine::{CloseReason, CoreAction, CoreEvent, CoreEventResult};
use raynet::proxy::message::ProxyMessage;
use raynet::shell::channels::{are_distinct, ChannelSenders, OutboundTransportPacket};
use raynet::shell::clock::{now_millis, CoreClock};
use raynet::shell::connections::{on_action, ActionStep, Connections, ReadOutcome, ReadStep};
use raynet::shell::runtime::{event_of, poll_step, write_again, PollStep, RuntimeStep, Sessions};

#[test]
fn clocks_count_from_their_start() {
    assert_eq!(now_millis(12, 345_678_901), 12_345);
    assert_eq!(now_millis(u64::MAX, 0), 0u64.wrapping_sub(1000));
    let clock = CoreClock::new(500, 70);
    assert_eq!(clock.boot_time_ms(), 500);
    assert_eq!(clock.elapsed_ms(70), 0);
    assert_eq!(clock.elapsed_ms(170), 100);
    assert_eq!(clock.elapsed_ms(10), 0);
}

#[test]
fn senders_are_found_by_channel() {
    assert!(are_distinct(&vec![3, 1, 2]));
    assert!(!are_distinct(&vec![3, 1, 3]));
    let senders = ChannelSenders::new(&vec![30, 10, 20]);
    assert_eq!(senders.channel_ids(), vec![10, 20, 30]);
    let packet = OutboundTransportPacket {
        channel_id: 10,
        bytes: vec![],
    };
    assert_eq!(senders.sender_for(&packet), Some(1));
    let packet = OutboundTransportPacket {
        channel_id: 11,
        bytes: vec![],
    };
    assert_eq!(senders.sender_for(&packet), None);
}

#[test]
fn polls_wait_for_deadlines() {
    assert_eq!(poll_step(10, 10), PollStep::Poll);
    assert_eq!(poll_step(10, u64::MAX), PollStep::Wait { delay_ms: 20 });
    assert_eq!(poll_step(10, 60), PollStep::Wait { delay_ms: 50 });
    assert_eq!(poll_step(10, 5_000), PollStep::Wait { delay_ms: 100 });
}

#[test]
fn actions_reach_attached_sessions_only() {
    let mut sessions = Sessions::new();
    assert_eq!(
        sessions.execute(CoreAction::WriteSession {
            conv_id: 4,
            bytes: vec![1],
        }),
        RuntimeStep::Ignore
    );
    assert_eq!(
        sessions.execute(CoreAction::OpenSession { conv_id: 4 }),
        RuntimeStep::Open { conv_id: 4 }
    );
    assert_eq!(
        sessions.execute(CoreAction::WriteSession {
            conv_id: 4,
            bytes: vec![1],
        }),
        RuntimeStep::Deliver {
            conv_id: 4,
            message: ProxyMessage::Write(vec![1]),
        }
    );
    assert_eq!(
        sessions.execute(CoreAction::CloseSession {
            conv_id: 4,
            reason: CloseReason::Reset,
        }),
        RuntimeStep::Deliver {
            conv_id: 4,
            message: ProxyMessage::Close(CloseReason::Reset),
        }
    );
    assert_eq!(
        sessions.execute(CoreAction::CloseSession {
            conv_id: 4,
            reason: CloseReason::Reset,
        }),
        RuntimeStep::Ignore
    );
    assert_eq!(
        sessions.execute(CoreAction::SendTransportPacket {
            channel_id: 9,
            bytes: vec![2],
        }),
        RuntimeStep::Send {
            packet: OutboundTransportPacket {
                channel_id: 9,
                bytes: vec![2],
            },
        }
    );
    sessions.attach(6);
    sessions.detach(6);
    assert_eq!(
        sessions.execute(CoreAction::WriteSession {
            conv_id: 6,
            bytes: vec![],
        }),
        RuntimeStep::Ignore
    );
}

#[test]
fn messages_become_events() {
    assert_eq!(
        event_of(3, ProxyMessage::Write(vec![1])),
        (
            CoreEvent::SessionWrite {
                conv_id: 3,
                bytes: vec![1],
            },
            false
        )
    );
    assert_eq!(
        event_of(3, ProxyMessage::Close(CloseReason::LocalClosed)),
        (
            CoreEvent::SessionClose {
                conv_id: 3,
                reason: CloseReason::LocalClosed,
            },
            true
        )
    );
    assert!(write_again(CoreEventResult::SessionWriteBlocked));
    assert!(!write_again(CoreEventResult::Handled));
}

#[test]
fn pending_connections_get_sessions() {
    let mut table = Connections::new();
    assert!(!table.bind_pending(1, 50));
    table.insert_pending(1, 100);
    assert_eq!(
        table.on_read(1, ReadOutcome::Bytes { bytes: vec![1] }),
        ReadStep::Drop
    );
    assert!(table.bind_pending(1, 50));
    assert_eq!(table.conv_id(1), Some(50));
    assert_eq!(table.get(50), Some(100));
    assert_eq!(
        table.on_read(1, ReadOutcome::Bytes { bytes: vec![1] }),
        ReadStep::Forward {
            conv_id: 50,
            bytes: vec![1],
        }
    );
    assert_eq!(table.on_read(1, ReadOutcome::WouldBlock), ReadStep::Sleep);
    assert_eq!(
        table.on_read(1, ReadOutcome::End),
        ReadStep::Stop {
            closed: Some((50, HopCloseReason::LocalClosed)),
        }
    );
    assert_eq!(table.get(50), None);
    table.insert_session(2, 60, 200);
    assert_eq!(
        table.on_read(
            2,
            ReadOutcome::Failed {
                message: "gone".to_string(),
            }
        ),
        ReadStep::Stop {
            closed: Some((60, HopCloseReason::Error("gone".to_string()))),
        }
    );
    table.insert_session(3, 70, 300);
    table.insert_session(4, 70, 300);
    table.insert_session(5, 80, 300);
    table.remove_conv(70);
    assert_eq!(table.conv_id(3), None);
    assert_eq!(table.conv_id(4), None);
    assert_eq!(table.conv_id(5), Some(80));
    table.remove_addr(5);
    assert_eq!(table.get(80), None);
    assert_eq!(
        table.on_read(9, ReadOutcome::End),
        ReadStep::Stop { closed: None }
    );
}

#[test]
fn new_connections_are_bound_by_their_answers() {
    let mut connections = Connections::new();
    connections.insert_pending(7, 70);
    let created = HopAction::IngressSessionCreated { conv_id: 5 };
    assert_eq!(
        connections.on_ingress_action(8, created.clone()),
        ActionStep::NotPending { conv_id: 5 }
    );
    assert_eq!(
        connections.on_ingress_action(7, created.clone()),
        ActionStep::Bound
    );
    assert_eq!(connections.conv_id(7), Some(5));
    assert_eq!(connections.get(5), Some(70));
    assert_eq!(on_action(created), ActionStep::Unexpected);
    let sent = HopAction::SendTransportPacket {
        channel_id: 2,
        bytes: vec![1, 2],
    };
    let step = ActionStep::Send {
        channel_id: 2,
        bytes: vec![1, 2],
    };
    assert_eq!(connections.on_ingress_action(7, sent.clone()), step);
    assert_eq!(on_action(sent), step);
    assert_eq!(
        on_action(HopAction::EmitMetric(Metric::SessionClosed { conv_id: 5 })),
        ActionStep::Ignored
    );
    assert_eq!(
        connections.on_ingress_action(
            7,
            HopAction::CloseSession {
                conv_id: 5,
                reason: HopCloseReason::Reset,
            },
        ),
        ActionStep::Unexpected
    );
}
