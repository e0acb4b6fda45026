//! What a socket does around a KCP control block: when a sender waits, what is flushed, who
//! is woken.
use vstd::prelude::*;

verus! {

/// Delay settings of the control block.
#[derive(Debug, Clone, Copy, PartialEq, Eq, Structural)]
pub struct KcpNoDelayConfig {
    /// Enable nodelay
    pub nodelay: bool,
    /// Internal update interval (ms)
    pub interval: i32,
    /// ACK number to enable fast resend
    pub resend: i32,
    /// Disable congestion control
    pub nc: bool,
}

impl Default for KcpNoDelayConfig {
    fn default() -> (config: KcpNoDelayConfig)
        ensures
            config == (KcpNoDelayConfig { nodelay: false, interval: 100, resend: 0, nc: false }),
    {
        KcpNoDelayConfig { nodelay: false, interval: 100, resend: 0, nc: false }
    }
}

impl KcpNoDelayConfig {
    /// The fastest settings: no delay, a tick of 10 ms, fast resend after 2, no congestion
    /// control.
    pub fn fastest() -> (config: KcpNoDelayConfig)
        ensures
            config == (KcpNoDelayConfig { nodelay: true, interval: 10, resend: 2, nc: true }),
    {
        KcpNoDelayConfig { nodelay: true, interval: 10, resend: 2, nc: true }
    }

    /// The normal settings: with delay, a tick of 40 ms, no fast resend, congestion control.
    pub fn normal() -> (config: KcpNoDelayConfig)
        ensures
            config == (KcpNoDelayConfig { nodelay: false, interval: 40, resend: 0, nc: false }),
    {
        KcpNoDelayConfig { nodelay: false, interval: 40, resend: 0, nc: false }
    }
}

/// Settings of a socket.
#[derive(Debug, Clone, Copy, PartialEq, Eq)]
pub struct KcpConfig {
    /// Max Transmission Unit
    pub mtu: usize,
    /// nodelay
    pub nodelay: KcpNoDelayConfig,
    /// Send and receive window
    pub wnd_size: (u16, u16),
    /// After how many seconds of silence a session expires, 90 by default
    pub session_expire_secs: Option<u64>,
    /// Flush immediately after a write
    pub flush_write: bool,
    /// Flush acknowledgements immediately after input
    pub flush_acks_input: bool,
    /// Hand out messages without bytes
    pub allow_recv_empty_packet: bool,
}

impl Default for KcpConfig {
    fn default() -> (config: KcpConfig)
        ensures
            config == (KcpConfig {
                mtu: 1165,
                nodelay: KcpNoDelayConfig { nodelay: true, interval: 10, resend: 2, nc: true },
                wnd_size: (2048, 2048),
                session_expire_secs: Some(90),
                flush_write: true,
                flush_acks_input: true,
                allow_recv_empty_packet: false,
            }),
    {
        KcpConfig {
            mtu: 1165,
            nodelay: KcpNoDelayConfig { nodelay: true, interval: 10, resend: 2, nc: true },
            wnd_size: (2048, 2048),
            session_expire_secs: Some(90),
            flush_write: true,
            flush_acks_input: true,
            allow_recv_empty_packet: false,
        }
    }
}

/// What a socket reads of its control block.
#[derive(Debug, Clone, Copy, PartialEq, Eq, Structural)]
pub struct KcpStatus {
    /// Segments that wait to be sent or acknowledged
    pub wait_snd: usize,
    /// The send window
    pub snd_wnd: u16,
    /// The window of the peer
    pub rmt_wnd: u16,
    /// No conversation id has been allocated yet
    pub waiting_conv: bool,
    /// Max Segment Size
    pub mss: usize,
    /// The size of the next whole message
    pub peek: Option<usize>,
}

impl KcpStatus {
    /// One of the two windows is full.
    pub open spec fn full(&self) -> bool {
        self.wait_snd >= self.snd_wnd || self.wait_snd >= self.rmt_wnd
    }

    fn is_full(&self) -> (full: bool)
        ensures
            full == self.full(),
    {
        self.wait_snd >= self.snd_wnd as usize || self.wait_snd >= self.rmt_wnd as usize
    }

    /// The window has to be flushed at once.
    pub fn need_flush(&self) -> (flush: bool)
        ensures
            flush == (self.full() && !self.waiting_conv),
    {
        self.is_full() && !self.waiting_conv
    }

    /// Nothing is left to send.
    pub fn can_close(&self) -> (can: bool)
        ensures
            can == (self.wait_snd == 0),
    {
        self.wait_snd == 0
    }
}

/// What becomes of a request to send.
#[derive(Debug, Clone, Copy, PartialEq, Eq, Structural)]
pub enum SendStep {
    /// The socket is closed.
    BrokenPipe,
    /// The sender waits until it is woken.
    Wait,
    /// The first `len` bytes go to the control block.
    Send { len: usize },
}

/// What the control block makes of a packet of the peer.
#[derive(Debug, Clone, Copy, PartialEq, Eq, Structural)]
pub enum InputOutcome {
    Taken,
    /// The packet belongs to another conversation.
    Inconsistent,
    Failed,
}

/// What becomes of a packet of the peer.
#[derive(Debug, Clone, Copy, PartialEq, Eq, Structural)]
pub enum InputResult {
    /// Acknowledgements are flushed where `flush` is set, and whoever can go on is woken.
    Taken { flush: bool },
    Ignored,
    Failed,
}

/// What the control block answers to a read.
#[derive(Debug, Clone, Copy, PartialEq, Eq, Structural)]
pub enum RecvOutcome {
    /// No whole message is there.
    NotReady,
    Failed,
    Bytes { len: usize },
}

/// What becomes of a request to receive.
#[derive(Debug, Clone, Copy, PartialEq, Eq, Structural)]
pub enum RecvStep {
    /// The reader waits until it is woken.
    Wait,
    Fail,
    Bytes { len: usize },
}

/// Who is woken.
#[derive(Debug, Clone, Copy, PartialEq, Eq, Structural)]
pub struct Woken {
    pub sender: bool,
    pub receiver: bool,
}

/// The state of a socket around its control block. Times are in milliseconds.
#[derive(Debug, Clone, Copy, PartialEq, Eq, Structural)]
pub struct KcpSocket {
    pub last_update: u64,
    pub flush_write: bool,
    pub flush_ack_input: bool,
    pub sent_first: bool,
    pub pending_sender: bool,
    pub pending_receiver: bool,
    pub closed: bool,
    pub allow_recv_empty_packet: bool,
}

impl KcpSocket {
    pub fn new(config: &KcpConfig, now: u64) -> (socket: KcpSocket)
        ensures
            socket == (KcpSocket {
                last_update: now,
                flush_write: config.flush_write,
                flush_ack_input: config.flush_acks_input,
                sent_first: false,
                pending_sender: false,
                pending_receiver: false,
                closed: false,
                allow_recv_empty_packet: config.allow_recv_empty_packet,
            }),
    {
        KcpSocket {
            last_update: now,
            flush_write: config.flush_write,
            flush_ack_input: config.flush_acks_input,
            sent_first: false,
            pending_sender: false,
            pending_receiver: false,
            closed: false,
            allow_recv_empty_packet: config.allow_recv_empty_packet,
        }
    }

    /// What a request to send `len` bytes comes to.
    pub open spec fn send_step(&self, kcp: KcpStatus, len: usize) -> SendStep {
        if self.closed {
            SendStep::BrokenPipe
        } else if self.sent_first && (kcp.full() || kcp.waiting_conv) {
            SendStep::Wait
        } else if !self.sent_first && kcp.waiting_conv && len > kcp.mss {
            SendStep::Send { len: kcp.mss }
        } else {
            SendStep::Send { len }
        }
    }

    /// A request to send: refused where the socket is closed, put off while a window is full
    /// or the conversation has no id. The first packet goes out all the same, and asks for
    /// an id: it is cut to one segment.
    pub fn poll_send(&mut self, kcp: &KcpStatus, len: usize) -> (step: SendStep)
        ensures
            step == old(self).send_step(*kcp, len),
            *final(self) == (KcpSocket {
                pending_sender: old(self).pending_sender || step is Wait,
                ..*old(self)
            }),
    {
        if self.closed {
            return SendStep::BrokenPipe;
        }
        if self.sent_first && (kcp.is_full() || kcp.waiting_conv) {
            self.pending_sender = true;
            return SendStep::Wait;
        }
        if !self.sent_first && kcp.waiting_conv && len > kcp.mss {
            return SendStep::Send { len: kcp.mss };
        }
        SendStep::Send { len }
    }

    /// The control block has taken the bytes. Says whether it has to be flushed before the
    /// send is settled.
    pub fn sent(&mut self, kcp: &KcpStatus) -> (flush: bool)
        ensures
            flush == kcp.full(),
            *final(self) == (KcpSocket { sent_first: true, ..*old(self) }),
    {
        self.sent_first = true;
        kcp.is_full()
    }

    /// The send is settled. Says whether the control block has to be flushed after it.
    pub fn settle_send(&mut self, now: u64) -> (flush: bool)
        ensures
            flush == old(self).flush_write,
            *final(self) == (KcpSocket { last_update: now, ..*old(self) }),
    {
        self.last_update = now;
        self.flush_write
    }

    /// What the packet of a peer comes to.
    pub open spec fn input_result(&self, outcome: InputOutcome) -> InputResult {
        match outcome {
            InputOutcome::Taken => InputResult::Taken { flush: self.flush_ack_input },
            InputOutcome::Inconsistent => InputResult::Ignored,
            InputOutcome::Failed => InputResult::Failed,
        }
    }

    /// The control block was handed a packet of the peer. One of another conversation is
    /// ignored: it counts neither as a sign of life nor as a failure.
    pub fn input(&mut self, outcome: InputOutcome, now: u64) -> (result: InputResult)
        ensures
            result == old(self).input_result(outcome),
            *final(self) == (KcpSocket {
                last_update: if outcome is Taken {
                    now
                } else {
                    old(self).last_update
                },
                ..*old(self)
            }),
    {
        match outcome {
            InputOutcome::Taken => {
                self.last_update = now;
                InputResult::Taken { flush: self.flush_ack_input }
            },
            InputOutcome::Inconsistent => InputResult::Ignored,
            InputOutcome::Failed => InputResult::Failed,
        }
    }

    /// A read that asks for nothing where the socket is closed.
    pub fn reads_nothing(&self) -> (nothing: bool)
        ensures
            nothing == self.closed,
    {
        self.closed
    }

    /// What a read comes to.
    pub open spec fn recv_step(&self, outcome: RecvOutcome) -> RecvStep {
        if self.closed {
            RecvStep::Bytes { len: 0 }
        } else {
            match outcome {
                RecvOutcome::NotReady => RecvStep::Wait,
                RecvOutcome::Failed => RecvStep::Fail,
                RecvOutcome::Bytes { len } => if len == 0 && !self.allow_recv_empty_packet {
                    RecvStep::Wait
                } else {
                    RecvStep::Bytes { len }
                },
            }
        }
    }

    /// A read of the control block came to `outcome`. On a closed socket no read is made and
    /// there is nothing more to come; a message without bytes is skipped unless the settings
    /// allow it.
    pub fn poll_recv(&mut self, outcome: RecvOutcome, now: u64) -> (step: RecvStep)
        ensures
            step == old(self).recv_step(outcome),
            *final(self) == (KcpSocket {
                pending_receiver: old(self).pending_receiver || step is Wait,
                last_update: if step is Bytes && !old(self).closed {
                    now
                } else {
                    old(self).last_update
                },
                ..*old(self)
            }),
    {
        if self.closed {
            return RecvStep::Bytes { len: 0 };
        }
        match outcome {
            RecvOutcome::NotReady => {},
            RecvOutcome::Failed => {
                return RecvStep::Fail;
            },
            RecvOutcome::Bytes { len } => {
                if len != 0 || self.allow_recv_empty_packet {
                    self.last_update = now;
                    return RecvStep::Bytes { len };
                }
            },
        }
        self.pending_receiver = true;
        RecvStep::Wait
    }

    /// Who can go on.
    pub open spec fn wakes(&self, kcp: KcpStatus) -> Woken {
        Woken {
            sender: self.pending_sender && !kcp.full() && !kcp.waiting_conv,
            receiver: self.pending_receiver && (kcp.peek matches Some(size) && (
            self.allow_recv_empty_packet || size > 0)),
        }
    }

    /// Wakes the sender where both windows have room and the conversation has an id, and the
    /// receiver where a message is there.
    pub fn try_wake_pending_waker(&mut self, kcp: &KcpStatus) -> (woken: Woken)
        ensures
            woken == old(self).wakes(*kcp),
            *final(self) == (KcpSocket {
                pending_sender: old(self).pending_sender && !woken.sender,
                pending_receiver: old(self).pending_receiver && !woken.receiver,
                ..*old(self)
            }),
    {
        let sender: bool = self.pending_sender && !kcp.is_full() && !kcp.waiting_conv;
        let receiver: bool = self.pending_receiver && match kcp.peek {
            Some(size) => self.allow_recv_empty_packet || size > 0,
            None => false,
        };
        if sender {
            self.pending_sender = false;
        }
        if receiver {
            self.pending_receiver = false;
        }
        Woken { sender, receiver }
    }

    /// The control block has been flushed.
    pub fn flushed(&mut self, now: u64)
        ensures
            *final(self) == (KcpSocket { last_update: now, ..*old(self) }),
    {
        self.last_update = now;
    }

    /// Closes the socket and wakes whoever waits.
    pub fn close(&mut self) -> (woken: Woken)
        ensures
            woken == (Woken {
                sender: old(self).pending_sender,
                receiver: old(self).pending_receiver,
            }),
            *final(self) == (KcpSocket {
                closed: true,
                pending_sender: false,
                pending_receiver: false,
                ..*old(self)
            }),
    {
        let woken = Woken { sender: self.pending_sender, receiver: self.pending_receiver };
        self.closed = true;
        self.pending_sender = false;
        self.pending_receiver = false;
        woken
    }
}

/// A sender that had to wait is woken exactly when the same request would be taken.
pub proof fn law_woken_sender_can_send(socket: KcpSocket, kcp: KcpStatus, len: usize)
    requires
        socket.pending_sender,
        socket.sent_first,
        !socket.closed,
    ensures
        socket.wakes(kcp).sender <==> socket.send_step(kcp, len) == (SendStep::Send { len }),
{
}

/// No one is left waiting on a closed socket: a send is refused, a read ends.
pub proof fn law_closed_socket_never_waits(
    socket: KcpSocket,
    kcp: KcpStatus,
    len: usize,
    outcome: RecvOutcome,
)
    requires
        socket.closed,
    ensures
        socket.send_step(kcp, len) is BrokenPipe,
        socket.recv_step(outcome) == (RecvStep::Bytes { len: 0 }),
{
}

} // verus!
