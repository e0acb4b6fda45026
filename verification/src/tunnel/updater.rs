//! The task that keeps a session going, turn by turn: it updates the control block, delivers
//! messages and waits.
use vstd::prelude::*;

use crate::tunnel::session;
use crate::tunnel::session::{Delivery, DeliveryEvent, UpdateStep};
use crate::tunnel::socket::KcpStatus;

verus! {

/// What the updater is about to do.
#[derive(Debug, Clone, Copy, PartialEq, Eq, Structural)]
pub enum Phase {
    /// It looks at the session and at its control block.
    Check,
    /// It flushes the window.
    Flush,
    /// It updates the control block.
    Update,
    /// It delivers messages. The next turn comes at `until_ms`.
    Deliver { delivery: Delivery, until_ms: u64 },
    /// It waits until this time, or until it is woken.
    Wait { until_ms: u64 },
    /// It closes the socket and the session, and ends the task that takes in packets.
    Stopped,
}

/// What has come of it.
#[derive(Debug, Clone, Copy, PartialEq, Eq, Structural)]
pub enum Turn {
    /// `closed` says whether the session was closed when the turn began, `is_closed` whether
    /// it was once the control block could be looked at, which has then been untouched for
    /// `elapsed_ns`.
    Checked { closed: bool, is_closed: bool, kcp: KcpStatus, elapsed_ns: u128 },
    /// The window has been flushed, or could not be.
    Flushed,
    /// The control block has been updated and asks for this much time, or could not be.
    Updated { now_ms: u64, asked_ms: Option<u32> },
    Delivered { event: DeliveryEvent },
    Woken,
}

/// The updater of a session.
#[derive(Debug, Clone, Copy, PartialEq, Eq, Structural)]
pub struct Updater {
    pub is_client: bool,
    pub expire_ns: Option<u128>,
    /// The bytes of a message that the connection had no room for.
    pub held: usize,
    pub phase: Phase,
}

/// The phase that a delivery leads to: once it is done the updater waits, and it stops where
/// the connection is gone.
pub open spec fn delivering(delivery: Delivery, until_ms: u64) -> Phase {
    match delivery {
        Delivery::Done { .. } => Phase::Wait { until_ms },
        Delivery::Broken => Phase::Stopped,
        _ => Phase::Deliver { delivery, until_ms },
    }
}

/// The updater after a turn, and whether the session is to be closed. What does not belong to
/// the phase changes nothing.
pub open spec fn advanced(u: Updater, turn: Turn) -> (Updater, bool) {
    match (u.phase, turn) {
        (Phase::Check, Turn::Checked { closed, is_closed, kcp, elapsed_ns }) => if closed {
            (Updater { phase: Phase::Stopped, ..u }, false)
        } else {
            match session::update_step(is_closed, kcp, u.is_client, elapsed_ns, u.expire_ns) {
                UpdateStep::Stop => (Updater { phase: Phase::Stopped, ..u }, false),
                UpdateStep::Update { close, flush } => (
                    Updater {
                        phase: if flush {
                            Phase::Flush
                        } else {
                            Phase::Update
                        },
                        ..u
                    },
                    close,
                ),
            }
        },
        (Phase::Flush, Turn::Flushed) => (Updater { phase: Phase::Update, ..u }, false),
        (Phase::Update, Turn::Updated { now_ms, asked_ms }) => (
            Updater {
                phase: Phase::Deliver {
                    delivery: session::first_delivery(u.held),
                    until_ms: session::update_time(now_ms, asked_ms),
                },
                ..u
            },
            false,
        ),
        (Phase::Deliver { delivery, until_ms }, Turn::Delivered { event }) => {
            let next = session::delivered(delivery, event);
            (
                Updater {
                    held: match next {
                        Delivery::Done { size } => size,
                        _ => u.held,
                    },
                    phase: delivering(next, until_ms),
                    ..u
                },
                false,
            )
        },
        (Phase::Wait { .. }, Turn::Woken) => (Updater { phase: Phase::Check, ..u }, false),
        _ => (u, false),
    }
}

impl Updater {
    /// The updater of a new session.
    pub fn new(is_client: bool, expire_ns: Option<u128>) -> (updater: Updater)
        ensures
            updater == (Updater { is_client, expire_ns, held: 0, phase: Phase::Check }),
    {
        Updater { is_client, expire_ns, held: 0, phase: Phase::Check }
    }

    /// Takes a turn. Says whether the session is to be closed.
    pub fn advance(&mut self, turn: Turn) -> (close: bool)
        requires
            old(self).expire_ns matches Some(limit) ==> 2 * limit <= u128::MAX,
        ensures
            (*final(self), close) == advanced(*old(self), turn),
    {
        match (self.phase, turn) {
            (Phase::Check, Turn::Checked { closed, is_closed, kcp, elapsed_ns }) => {
                if closed {
                    self.phase = Phase::Stopped;
                    return false;
                }
                let step = session::plan_update(
                    is_closed,
                    &kcp,
                    self.is_client,
                    elapsed_ns,
                    self.expire_ns,
                );
                match step {
                    UpdateStep::Stop => {
                        self.phase = Phase::Stopped;
                        false
                    },
                    UpdateStep::Update { close, flush } => {
                        self.phase = if flush {
                            Phase::Flush
                        } else {
                            Phase::Update
                        };
                        close
                    },
                }
            },
            (Phase::Flush, Turn::Flushed) => {
                self.phase = Phase::Update;
                false
            },
            (Phase::Update, Turn::Updated { now_ms, asked_ms }) => {
                self.phase = Phase::Deliver {
                    delivery: session::begin_delivery(self.held),
                    until_ms: session::next_update(now_ms, asked_ms),
                };
                false
            },
            (Phase::Deliver { delivery, until_ms }, Turn::Delivered { event }) => {
                let next: Delivery = session::deliver(delivery, event);
                match next {
                    Delivery::Done { size } => {
                        self.held = size;
                        self.phase = Phase::Wait { until_ms };
                    },
                    Delivery::Broken => {
                        self.phase = Phase::Stopped;
                    },
                    _ => {
                        self.phase = Phase::Deliver { delivery: next, until_ms };
                    },
                }
                false
            },
            (Phase::Wait { .. }, Turn::Woken) => {
                self.phase = Phase::Check;
                false
            },
            _ => false,
        }
    }
}

/// Once a session is closed its updater stops with the next turn, and stays stopped.
pub proof fn law_closed_session_stops(u: Updater, turn: Turn)
    ensures
        u.phase == Phase::Check && (turn matches Turn::Checked { closed, .. } && closed)
            ==> advanced(u, turn).0.phase == Phase::Stopped,
        u.phase == Phase::Stopped ==> advanced(u, turn) == (u, false),
{
}

/// Only silence closes a session from within, and only that of a server.
pub proof fn law_only_silence_closes(u: Updater, turn: Turn)
    requires
        advanced(u, turn).1,
    ensures
        !u.is_client,
        turn matches Turn::Checked { is_closed, elapsed_ns, .. } && !is_closed && elapsed_ns
            > u.expire_ns->0 && u.expire_ns is Some,
{
}

/// The bytes that wait for the connection.
pub open spec fn waiting(u: Updater) -> int {
    match u.phase {
        Phase::Deliver { delivery, .. } => session::held(delivery),
        _ => u.held as int,
    }
}

/// Bytes that wait for the connection keep waiting, turn by turn, until they are handed to it
/// or it is gone.
pub proof fn law_waiting_bytes_are_kept(u: Updater, turn: Turn)
    requires
        waiting(u) > 0,
    ensures
        ({
            let next = advanced(u, turn).0;
            ||| waiting(next) == waiting(u)
            ||| turn == (Turn::Delivered { event: DeliveryEvent::Sent })
            ||| turn == (Turn::Delivered { event: DeliveryEvent::Accepted })
            ||| next.phase == Phase::Stopped
        }),
{
    if let (Phase::Deliver { delivery, .. }, Turn::Delivered { event }) = (u.phase, turn) {
        session::law_no_message_is_dropped(delivery, event);
    }
}

} // verus!
