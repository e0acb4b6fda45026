//! The KCP control block.
use std::collections::VecDeque;

use vstd::prelude::*;

use crate::kcp::error::Error;
use crate::kcp::laws;
use crate::kcp::model;
use crate::octets;

verus! {

pub const KCP_CMD_PUSH: u8 = 81;  // cmd: push data

pub const KCP_CMD_ACK: u8 = 82;  // cmd: ack

pub const KCP_CMD_WASK: u8 = 83;  // cmd: window probe (ask)

pub const KCP_CMD_WINS: u8 = 84;  // cmd: window size (tell)

/// KCP Header size
pub const KCP_OVERHEAD: usize = 28;

pub const KCP_THRESH_INIT: u16 = 2;

pub const KCP_THRESH_MIN: u16 = 2;

pub const KCP_RTO_MAX_SCALE: u32 = 6_000;

/// max times to trigger fastack
pub const KCP_FASTACK_LIMIT: u32 = 5;

pub type KcpResult<T> = Result<T, Error>;

#[derive(Clone, Copy)]
pub struct KcpParams {
    pub mtu: usize,
    pub send_window: u16,
    pub receive_window: u16,
    pub nodelay: bool,
    /// ACK number to trigger fast resend
    pub fast_resend: Option<u32>,
    pub congestion_control: bool,
    pub time_scale: u8,
}

/// The time constants of a control block, in milliseconds.
#[derive(Clone, Copy)]
pub struct KcpTiming {
    pub rto_nodelay: u32,
    pub rto_normal: u32,
    pub rto_initial: u32,
    pub rto_max: u32,
    pub interval: u32,
    pub probe_initial: u32,
    pub probe_max: u32,
}

impl KcpTiming {
    /// The time constants for a scale.
    pub open spec fn scaled(time_scale: u8) -> KcpTiming {
        KcpTiming {
            rto_nodelay: (3 * time_scale) as u32,
            rto_normal: (10 * time_scale) as u32,
            rto_initial: (20 * time_scale) as u32,
            rto_max: (6_000 * time_scale) as u32,
            interval: (2 * time_scale) as u32,
            probe_initial: (700 * time_scale) as u32,
            probe_max: (12_000 * time_scale) as u32,
        }
    }

    /// No constant is greater than the largest scale makes it.
    pub open spec fn bounded(self) -> bool {
        &&& self.rto_max <= 1_530_000
        &&& self.interval <= 510
        &&& self.probe_initial <= self.probe_max <= 3_060_000
    }

    pub fn new(time_scale: u8) -> (timing: Self)
        ensures
            timing == Self::scaled(time_scale),
    {
        let scale: u32 = time_scale as u32;
        Self {
            rto_nodelay: 3 * scale,
            rto_normal: 10 * scale,
            rto_initial: 20 * scale,
            rto_max: KCP_RTO_MAX_SCALE * scale,
            interval: 2 * scale,
            probe_initial: 700 * scale,
            probe_max: 12_000 * scale,
        }
    }
}

/// Read `conv` from raw buffer
pub fn get_conv(buf: &[u8]) -> (conv: u64)
    requires
        buf@.len() >= KCP_OVERHEAD,
    ensures
        conv == model::conv_of(buf@),
{
    proof {
        octets::lemma_pow256_values();
    }
    octets::get_le(buf, 0, 8)
}

pub fn timediff(later: u32, earlier: u32) -> (difference: i32)
    ensures
        difference == model::timediff(later, earlier),
{
    let distance: u32 = later.wrapping_sub(earlier);
    if distance < 0x8000_0000 {
        distance as i32
    } else {
        (distance as i64 - 0x1_0000_0000) as i32
    }
}

fn min_u32(a: u32, b: u32) -> (m: u32)
    ensures
        m == model::min(a as int, b as int),
{
    if a <= b {
        a
    } else {
        b
    }
}

fn max_u32(a: u32, b: u32) -> (m: u32)
    ensures
        m == model::max(a as int, b as int),
{
    if a >= b {
        a
    } else {
        b
    }
}

pub struct KcpSegment {
    conv: u64,
    cmd: u8,
    frg: u8,
    wnd: u16,
    ts: u32,
    sn: u32,
    una: u32,
    resendts: u32,
    rto: u32,
    fastack: u32,
    xmit: u32,
    data: Vec<u8>,
}

impl View for KcpSegment {
    type V = model::SegmentState;

    closed spec fn view(&self) -> model::SegmentState {
        model::SegmentState {
            conv: self.conv,
            cmd: self.cmd,
            frg: self.frg,
            wnd: self.wnd,
            ts: self.ts,
            sn: self.sn,
            una: self.una,
            resendts: self.resendts,
            rto: self.rto,
            fastack: self.fastack,
            xmit: self.xmit,
            data: self.data@,
        }
    }
}

/// The models of a queue of segments.
pub open spec fn segments(queue: Seq<KcpSegment>) -> Seq<model::SegmentState> {
    Seq::new(queue.len(), |i: int| queue[i]@)
}

/// The contents of finished packets.
pub open spec fn packets(output: Seq<Vec<u8>>) -> Seq<Seq<u8>> {
    Seq::new(output.len(), |i: int| output[i]@)
}

proof fn lemma_segments_push(queue: Seq<KcpSegment>, segment: KcpSegment)
    ensures
        segments(queue.push(segment)) == segments(queue).push(segment@),
{
    assert(segments(queue.push(segment)) =~= segments(queue).push(segment@));
}

pub proof fn lemma_packets_push(output: Seq<Vec<u8>>, packet: Vec<u8>)
    ensures
        packets(output.push(packet)) == packets(output).push(packet@),
{
    assert(packets(output.push(packet)) =~= packets(output).push(packet@));
}

impl KcpSegment {
    fn new_with_data(data: Vec<u8>, frg: u8) -> (segment: Self)
        ensures
            segment@ == model::queued(data@, frg),
    {
        Self {
            conv: 0,
            cmd: 0,
            frg,
            wnd: 0,
            ts: 0,
            sn: 0,
            una: 0,
            resendts: 0,
            rto: 0,
            fastack: 0,
            xmit: 0,
            data,
        }
    }

    fn encode(&self, buf: &mut Vec<u8>)
        ensures
            final(buf)@ == old(buf)@ + model::encode_segment(self@),
    {
        octets::put_le(buf, self.conv, 8);
        buf.push(self.cmd);
        buf.push(self.frg);
        octets::put_le(buf, self.wnd as u64, 2);
        octets::put_le(buf, self.ts as u64, 4);
        octets::put_le(buf, self.sn as u64, 4);
        octets::put_le(buf, self.una as u64, 4);
        octets::put_le(buf, self.data.len() as u64, 4);
        buf.extend_from_slice(self.data.as_slice());
        assert(buf@ =~= old(buf)@ + model::encode_segment(self@));
    }

    /// Reads the header and the payload at `at`; the payload is known to be complete.
    fn decode(bytes: &[u8], at: usize) -> (segment: Self)
        requires
            at + 28 <= bytes@.len(),
            at + 28 + model::data_len_of(bytes@.skip(at as int)) <= bytes@.len(),
        ensures
            segment@ == model::decode_segment(bytes@.skip(at as int)),
    {
        let total: usize = bytes.len();
        let ghost rest = bytes@.skip(at as int);
        proof {
            octets::lemma_pow256_values();
            laws::lemma_field_of_skip(bytes@, at as int);
        }
        let len: usize = octets::get_le(bytes, at + 24, 4) as usize;
        let segment = Self {
            conv: octets::get_le(bytes, at, 8),
            cmd: bytes[at + 8],
            frg: bytes[at + 9],
            wnd: octets::get_le(bytes, at + 10, 2) as u16,
            ts: octets::get_le(bytes, at + 12, 4) as u32,
            sn: octets::get_le(bytes, at + 16, 4) as u32,
            una: octets::get_le(bytes, at + 20, 4) as u32,
            resendts: 0,
            rto: 0,
            fastack: 0,
            xmit: 0,
            data: octets::copy_range(bytes, at + 28, at + 28 + len),
        };
        assert(segment.data@ =~= rest.subrange(28, 28 + model::data_len_of(rest)));
        segment
    }
}

/// A queue with the same segments.
fn duplicate_queue(queue: &VecDeque<KcpSegment>) -> (copy: VecDeque<KcpSegment>)
    ensures
        segments(copy@) == segments(queue@),
{
    let mut copy: VecDeque<KcpSegment> = VecDeque::new();
    let mut i: usize = 0;
    while i < queue.len()
        invariant
            i <= queue@.len(),
            segments(copy@) == segments(queue@).take(i as int),
        decreases queue@.len() - i,
    {
        let segment = &queue[i];
        let twin = KcpSegment {
            conv: segment.conv,
            cmd: segment.cmd,
            frg: segment.frg,
            wnd: segment.wnd,
            ts: segment.ts,
            sn: segment.sn,
            una: segment.una,
            resendts: segment.resendts,
            rto: segment.rto,
            fastack: segment.fastack,
            xmit: segment.xmit,
            data: octets::copy_range(segment.data.as_slice(), 0, segment.data.len()),
        };
        assert(twin@ =~= queue@[i as int]@);
        proof {
            lemma_segments_push(copy@, twin);
            assert(segments(copy@).push(twin@) =~= segments(queue@).take(i + 1));
        }
        copy.push_back(twin);
        i = i + 1;
    }
    assert(segments(copy@) =~= segments(queue@));
    copy
}

/// KCP control
pub struct Kcp {
    /// Conversation ID
    conv: u64,
    /// Maximum Transmission Unit
    mtu: usize,
    /// Maximum Segment Size
    mss: usize,
    /// First unacknowledged packet
    snd_una: u32,
    /// Next packet
    snd_nxt: u32,
    /// Next packet to be received
    rcv_nxt: u32,
    /// Congestion window threshold
    ssthresh: u16,
    /// ACK receive variable RTT
    rx_rttval: u32,
    /// ACK receive static RTT
    rx_srtt: u32,
    /// Resend time (calculated by ACK delay time)
    rx_rto: u32,
    /// Minimal resend timeout
    rx_minrto: u32,
    timing: KcpTiming,
    /// Send window
    snd_wnd: u16,
    /// Receive window
    rcv_wnd: u16,
    /// Remote receive window
    rmt_wnd: u16,
    /// Congestion window
    cwnd: u16,
    /// Check window: ask remote for window size
    ask_send: bool,
    /// Check window: telling window size to remote
    ask_tell: bool,
    /// Last update time
    current: u32,
    /// Next flush interval
    ts_flush: u32,
    /// Enable nodelay
    nodelay: bool,
    /// Updated has been called or not
    updated: bool,
    /// Next check window timestamp
    ts_probe: u32,
    /// Check window wait time
    probe_wait: u32,
    /// Maximum payload size
    incr: u64,
    snd_queue: VecDeque<KcpSegment>,
    rcv_queue: VecDeque<KcpSegment>,
    snd_buf: VecDeque<KcpSegment>,
    rcv_buf: VecDeque<KcpSegment>,
    /// Pending ACK
    acklist: Vec<(u32, u32)>,
    buf: Vec<u8>,
    /// ACK number to trigger fast resend
    fastresend: Option<u32>,
    congestion_control: bool,
    output: Vec<Vec<u8>>,
}

impl View for Kcp {
    type V = model::KcpState;

    closed spec fn view(&self) -> model::KcpState {
        model::KcpState {
            conv: self.conv,
            mtu: self.mtu,
            mss: self.mss,
            snd_una: self.snd_una,
            snd_nxt: self.snd_nxt,
            rcv_nxt: self.rcv_nxt,
            ssthresh: self.ssthresh,
            rx_rttval: self.rx_rttval,
            rx_srtt: self.rx_srtt,
            rx_rto: self.rx_rto,
            rx_minrto: self.rx_minrto,
            timing: self.timing,
            snd_wnd: self.snd_wnd,
            rcv_wnd: self.rcv_wnd,
            rmt_wnd: self.rmt_wnd,
            cwnd: self.cwnd,
            ask_send: self.ask_send,
            ask_tell: self.ask_tell,
            current: self.current,
            ts_flush: self.ts_flush,
            nodelay: self.nodelay,
            updated: self.updated,
            ts_probe: self.ts_probe,
            probe_wait: self.probe_wait,
            incr: self.incr,
            snd_queue: segments(self.snd_queue@),
            rcv_queue: segments(self.rcv_queue@),
            snd_buf: segments(self.snd_buf@),
            rcv_buf: segments(self.rcv_buf@),
            acklist: self.acklist@,
            buf: self.buf@,
            fastresend: self.fastresend,
            congestion_control: self.congestion_control,
            output: packets(self.output@),
        }
    }
}

impl Kcp {
    /// No operation leaves the control block in a state without these properties.
    pub open spec fn wf(&self) -> bool {
        model::well_formed(self@)
    }

    /// Creates a KCP control object, `conv` must be equal in both endpoints in one connection.
    ///
    /// `conv` represents conversation.
    pub fn new(conv: u64, params: KcpParams) -> (kcp: Self)
        requires
            KCP_OVERHEAD < params.mtu <= KCP_OVERHEAD + u32::MAX,
        ensures
            kcp@ == model::init(conv, params),
            kcp.wf(),
    {
        let timing = KcpTiming::new(params.time_scale);
        let kcp = Kcp {
            conv,
            snd_una: 0,
            snd_nxt: 0,
            rcv_nxt: 0,
            ts_probe: 0,
            probe_wait: 0,
            snd_wnd: params.send_window,
            rcv_wnd: params.receive_window,
            rmt_wnd: params.receive_window,
            cwnd: 0,
            incr: 0,
            ask_send: false,
            ask_tell: false,
            mtu: params.mtu,
            mss: params.mtu - KCP_OVERHEAD,
            buf: Vec::new(),
            snd_queue: VecDeque::new(),
            rcv_queue: VecDeque::new(),
            snd_buf: VecDeque::new(),
            rcv_buf: VecDeque::new(),
            acklist: Vec::new(),
            rx_srtt: 0,
            rx_rttval: 0,
            rx_rto: timing.rto_initial,
            rx_minrto: if params.nodelay {
                timing.rto_nodelay
            } else {
                timing.rto_normal
            },
            timing,
            current: 0,
            ts_flush: timing.interval,
            nodelay: params.nodelay,
            updated: false,
            ssthresh: KCP_THRESH_INIT,
            fastresend: params.fast_resend,
            congestion_control: params.congestion_control,
            output: Vec::new(),
        };
        proof {
            assert(kcp@ =~= model::init(conv, params));
            laws::lemma_init_well_formed(conv, params);
        }
        kcp
    }

    /// Send bytes into buffer
    pub fn send(&mut self, buf: &[u8]) -> (result: KcpResult<usize>)
        requires
            old(self).wf(),
        ensures
            (final(self)@, result) == model::send(old(self)@, buf@),
            final(self).wf(),
    {
        let sent_size: usize = buf.len();
        let count: usize = if sent_size == 0 {
            1
        } else {
            proof {
                laws::lemma_div_bound(sent_size - 1, self.mss as int);
            }
            (sent_size - 1) / self.mss + 1
        };
        assert(count == model::fragment_count(buf@.len(), self.mss as int));
        if count >= self.rcv_wnd as usize || count >= 256 {
            return Err(Error::UserBufTooBig);
        }
        let ghost all = model::fragments(buf@, self.mss as int, count as nat);
        let ghost queue = self@.snd_queue;
        let mut at: usize = 0;
        let mut left: usize = count;
        assert(buf@.skip(0) =~= buf@);
        assert(self@.snd_queue + all =~= queue + all);
        while left > 0
            invariant
                left <= count < 256,
                at <= sent_size == buf@.len(),
                self.mss == old(self).mss,
                self@ == (model::KcpState { snd_queue: self@.snd_queue, ..old(self)@ }),
                self@.snd_queue + model::fragments(
                    buf@.skip(at as int),
                    self.mss as int,
                    left as nat,
                ) == queue + all,
            decreases left,
        {
            let ghost before = self@.snd_queue;
            let size: usize = if self.mss <= sent_size - at {
                self.mss
            } else {
                sent_size - at
            };
            let piece = octets::copy_range(buf, at, at + size);
            assert(piece@ =~= buf@.skip(at as int).take(size as int));
            self.snd_queue.push_back(KcpSegment::new_with_data(piece, (left - 1) as u8));
            proof {
                let rest = buf@.skip(at as int);
                assert(rest.skip(size as int) =~= buf@.skip(at + size));
                assert(self@.snd_queue =~= before.push(
                    model::queued(piece@, (left - 1) as u8),
                ));
                assert(self@.snd_queue + model::fragments(
                    buf@.skip(at + size),
                    self.mss as int,
                    (left - 1) as nat,
                ) =~= before + model::fragments(rest, self.mss as int, left as nat));
            }
            at = at + size;
            left = left - 1;
        }
        assert(self@.snd_queue =~= queue + all);
        proof {
            laws::lemma_send_well_formed(old(self)@, buf@);
        }
        Ok(sent_size)
    }

    // move available data from rcv_buf -> rcv_queue
    fn move_buf(&mut self)
        ensures
            final(self)@ == model::move_buf(old(self)@),
    {
        while self.rcv_buf.len() > 0 && self.rcv_buf[0].sn == self.rcv_nxt && self.rcv_queue.len()
            < self.rcv_wnd as usize
            invariant
                model::move_buf(self@) == model::move_buf(old(self)@),
            decreases self.rcv_buf@.len(),
        {
            let ghost before = self@;
            match self.rcv_buf.pop_front() {
                Some(seg) => {
                    self.rcv_nxt = self.rcv_nxt.wrapping_add(1);
                    self.rcv_queue.push_back(seg);
                },
                None => {},
            }
            assert(self@.rcv_buf =~= before.rcv_buf.drop_first());
            assert(self@.rcv_queue =~= before.rcv_queue.push(before.rcv_buf[0]));
        }
    }

    /// The length of the first message where it is at most `room`.
    fn message_len_within(&self, room: usize) -> (len: Option<usize>)
        ensures
            match len {
                Some(n) => n == model::message_bytes(self@.rcv_queue).len() && n <= room,
                None => model::message_bytes(self@.rcv_queue).len() > room,
            },
    {
        let ghost queue = self@.rcv_queue;
        let mut total: usize = 0;
        let mut i: usize = 0;
        assert(queue.skip(0) =~= queue);
        while i < self.rcv_queue.len()
            invariant
                queue == self@.rcv_queue,
                i <= queue.len(),
                total <= room,
                model::message_bytes(queue).len() == total + model::message_bytes(
                    queue.skip(i as int),
                ).len(),
            decreases queue.len() - i,
        {
            proof {
                let rest = queue.skip(i as int);
                assert(rest.drop_first() =~= queue.skip(i + 1));
                assert(rest[0] == queue[i as int]);
            }
            let size: usize = self.rcv_queue[i].data.len();
            if size > room - total {
                return None;
            }
            total = total + size;
            if self.rcv_queue[i].frg == 0 {
                return Some(total);
            }
            i = i + 1;
        }
        Some(total)
    }

    /// Why no message can be received now.
    fn peek_error(&self) -> (error: Option<Error>)
        ensures
            match error {
                Some(e) => model::peek(self@) == Err::<Seq<u8>, Error>(e),
                None => model::peek(self@) is Ok,
            },
    {
        if self.rcv_queue.len() == 0 {
            return Some(Error::RecvQueueEmpty);
        }
        if self.rcv_queue.len() < self.rcv_queue[0].frg as usize + 1 {
            return Some(Error::ExpectingFragment);
        }
        None
    }

    /// Check buffer size without actually consuming it
    pub fn peeksize(&self) -> (result: KcpResult<usize>)
        requires
            model::peek(self@) is Ok ==> model::peek(self@)->Ok_0.len() <= usize::MAX,
        ensures
            match model::peek(self@) {
                Ok(message) => result == Ok::<usize, Error>(message.len() as usize),
                Err(e) => result == Err::<usize, Error>(e),
            },
    {
        if let Some(e) = self.peek_error() {
            return Err(e);
        }
        match self.message_len_within(usize::MAX) {
            Some(len) => Ok(len),
            None => Ok(usize::MAX),
        }
    }

    /// Takes out the first message.
    pub fn recv_message(&mut self) -> (result: KcpResult<Vec<u8>>)
        requires
            old(self).wf(),
        ensures
            final(self).wf(),
            match model::peek(old(self)@) {
                Ok(message) => {
                    &&& result is Ok
                    &&& result->Ok_0@ == message
                    &&& final(self)@ == model::after_recv(old(self)@)
                },
                Err(e) => result == Err::<Vec<u8>, Error>(e) && final(self)@ == old(self)@,
            },
    {
        if let Some(e) = self.peek_error() {
            return Err(e);
        }
        let recover: bool = self.rcv_queue.len() >= self.rcv_wnd as usize;
        // Merge fragment
        let mut message: Vec<u8> = Vec::new();
        let mut done: bool = false;
        let ghost queue = self@.rcv_queue;
        assert(message@ + model::message_bytes(queue) =~= model::message_bytes(queue));
        while !done && self.rcv_queue.len() > 0
            invariant
                self@ == (model::KcpState { rcv_queue: self@.rcv_queue, ..old(self)@ }),
                done ==> model::message_bytes(queue) == message@,
                done ==> model::after_message(queue) == self@.rcv_queue,
                !done ==> model::message_bytes(queue) == message@ + model::message_bytes(
                    self@.rcv_queue,
                ),
                !done ==> model::after_message(queue) == model::after_message(self@.rcv_queue),
            decreases self.rcv_queue@.len(),
        {
            let ghost before = self@.rcv_queue;
            let ghost merged = message@;
            match self.rcv_queue.pop_front() {
                Some(seg) => {
                    message.extend_from_slice(seg.data.as_slice());
                    assert(message@ =~= merged + seg@.data);
                    if seg.frg == 0 {
                        done = true;
                    }
                    assert(seg@ == before[0]);
                },
                None => {},
            }
            proof {
                assert(self@.rcv_queue =~= before.drop_first());
                assert(merged + (before[0].data + model::message_bytes(before.drop_first()))
                    =~= message@ + model::message_bytes(before.drop_first()));
            }
        }
        assert(message@ =~= model::message_bytes(queue));
        assert(self@.rcv_queue =~= model::after_message(queue));
        self.move_buf();
        // fast recover
        if self.rcv_queue.len() < self.rcv_wnd as usize && recover {
            // tell remote my window size
            self.ask_tell = true;
        }
        proof {
            laws::lemma_after_recv_well_formed(old(self)@);
            assert(self@ =~= model::after_recv(old(self)@));
        }
        Ok(message)
    }

    /// Receive data from buffer
    pub fn recv(&mut self, buf: &mut [u8]) -> (result: KcpResult<usize>)
        requires
            old(self).wf(),
        ensures
            final(self).wf(),
            final(self)@ == model::recv(old(self)@, old(buf)@.len()).0,
            match model::recv(old(self)@, old(buf)@.len()).1 {
                Ok(message) => {
                    &&& result == Ok::<usize, Error>(message.len() as usize)
                    &&& message.len() <= old(buf)@.len()
                    &&& final(buf)@ == message + old(buf)@.skip(message.len() as int)
                },
                Err(e) => result == Err::<usize, Error>(e) && final(buf)@ == old(buf)@,
            },
    {
        if let Some(e) = self.peek_error() {
            return Err(e);
        }
        if self.message_len_within(buf.len()).is_none() {
            return Err(Error::UserBufTooSmall);
        }
        match self.recv_message() {
            Ok(message) => {
                let mut written: usize = 0;
                let ghost target = old(buf)@;
                assert(buf@ =~= message@.take(0) + target.skip(0));
                while written < message.len()
                    invariant
                        written <= message@.len() <= target.len(),
                        target.len() == buf@.len(),
                        buf@ == message@.take(written as int) + target.skip(written as int),
                    decreases message@.len() - written,
                {
                    buf[written] = message[written];
                    written = written + 1;
                    assert(buf@ =~= message@.take(written as int) + target.skip(written as int));
                }
                assert(message@.take(written as int) =~= message@);
                Ok(written)
            },
            Err(e) => Err(e),
        }
    }

    fn update_ack(&mut self, rtt: u32)
        requires
            model::limits_hold(old(self)@),
        ensures
            final(self)@ == model::update_ack(old(self)@, rtt),
    {
        let sample: u64 = rtt as u64;
        let srtt: u64;
        let rttval: u64;
        if self.rx_srtt == 0 {
            srtt = sample;
            rttval = sample / 2;
        } else {
            let old_srtt: u64 = self.rx_srtt as u64;
            let delta: u64 = if sample >= old_srtt {
                sample - old_srtt
            } else {
                old_srtt - sample
            };
            rttval = (3 * self.rx_rttval as u64 + delta) / 4;
            let smoothed: u64 = (7 * old_srtt + sample) / 8;
            srtt = if smoothed >= 1 {
                smoothed
            } else {
                1
            };
        }
        let interval: u64 = self.timing.interval as u64;
        let spread: u64 = if interval >= 4 * rttval {
            interval
        } else {
            4 * rttval
        };
        let rto: u64 = srtt + spread;
        let floored: u64 = if rto >= self.rx_minrto as u64 {
            rto
        } else {
            self.rx_minrto as u64
        };
        let clamped: u64 = if floored <= self.timing.rto_max as u64 {
            floored
        } else {
            self.timing.rto_max as u64
        };
        self.rx_srtt = srtt as u32;
        self.rx_rttval = rttval as u32;
        self.rx_rto = clamped as u32;
    }

    fn shrink_buf(&mut self)
        ensures
            final(self)@ == model::shrink_buf(old(self)@),
    {
        self.snd_una = if self.snd_buf.len() > 0 {
            self.snd_buf[0].sn
        } else {
            self.snd_nxt
        };
    }

    fn parse_una(&mut self, una: u32)
        ensures
            final(self)@ == model::parse_una(old(self)@, una),
    {
        while self.snd_buf.len() > 0 && timediff(una, self.snd_buf[0].sn) > 0
            invariant
                self@ == (model::KcpState { snd_buf: self@.snd_buf, ..old(self)@ }),
                model::drop_acked(self@.snd_buf, una) == model::drop_acked(
                    old(self)@.snd_buf,
                    una,
                ),
            decreases self.snd_buf@.len(),
        {
            let ghost before = self@.snd_buf;
            let _ = self.snd_buf.pop_front();
            assert(self@.snd_buf =~= before.drop_first());
        }
        self.shrink_buf();
    }

    fn parse_ack(&mut self, sn: u32)
        ensures
            final(self)@ == model::parse_ack(old(self)@, sn),
    {
        if timediff(sn, self.snd_una) >= 0 && timediff(sn, self.snd_nxt) < 0 {
            let ghost queue = self@.snd_buf;
            let mut i: usize = 0;
            assert(queue.take(0) + model::remove_sn(queue.skip(0), sn) =~= model::remove_sn(
                queue,
                sn,
            )) by {
                assert(queue.skip(0) =~= queue);
            }
            while i < self.snd_buf.len() && sn > self.snd_buf[i].sn
                invariant
                    self@ == old(self)@,
                    queue == self@.snd_buf,
                    i <= queue.len(),
                    queue.take(i as int) + model::remove_sn(queue.skip(i as int), sn)
                        == model::remove_sn(queue, sn),
                decreases queue.len() - i,
            {
                proof {
                    let rest = queue.skip(i as int);
                    assert(rest.drop_first() =~= queue.skip(i + 1));
                    assert(queue.take(i + 1) + model::remove_sn(queue.skip(i + 1), sn)
                        =~= queue.take(i as int) + (seq![rest[0]] + model::remove_sn(
                        rest.drop_first(),
                        sn,
                    )));
                }
                i = i + 1;
            }
            if i < self.snd_buf.len() && self.snd_buf[i].sn == sn {
                let _ = self.snd_buf.remove(i);
                proof {
                    let rest = queue.skip(i as int);
                    assert(queue.take(i as int) + rest.drop_first() =~= queue.remove(i as int));
                    assert(self@.snd_buf =~= queue.remove(i as int));
                }
            } else {
                assert(queue.take(i as int) + queue.skip(i as int) =~= queue);
            }
        }
        self.shrink_buf();
    }

    fn parse_fastack(&mut self, sn: u32, ts: u32)
        ensures
            final(self)@ == model::parse_fastack(old(self)@, sn, ts),
    {
        if timediff(sn, self.snd_una) < 0 || timediff(sn, self.snd_nxt) >= 0 {
            return;
        }
        let ghost queue = self@.snd_buf;
        let ghost all = model::fastack_all(queue, sn, ts);
        let n: usize = self.snd_buf.len();
        let mut i: usize = 0;
        let mut passed: bool = false;
        let ghost mut done = Seq::<model::SegmentState>::empty();
        proof {
            assert(queue.skip(0) =~= queue);
            assert(done + all =~= all);
            assert(queue.skip(0) + done =~= queue);
        }
        // each segment goes from the front to the back once
        while i < n
            invariant
                i <= n == queue.len(),
                self@ == (model::KcpState { snd_buf: self@.snd_buf, ..old(self)@ }),
                done.len() == i,
                self@.snd_buf == queue.skip(i as int) + done,
                !passed ==> all == done + model::fastack_all(queue.skip(i as int), sn, ts),
                passed ==> all == done + queue.skip(i as int),
            decreases n - i,
        {
            let ghost before = self@.snd_buf;
            let ghost rest = queue.skip(i as int);
            assert(rest.drop_first() =~= queue.skip(i + 1));
            assert(before[0] == rest[0]);
            match self.snd_buf.pop_front() {
                Some(mut seg) => {
                    let ghost original = seg@;
                    assert(original == rest[0]);
                    if !passed && timediff(sn, seg.sn) < 0 {
                        passed = true;
                    }
                    if !passed && sn != seg.sn && timediff(ts, seg.ts) >= 0 {
                        seg.fastack = seg.fastack.wrapping_add(1);
                    }
                    let ghost next = seg@;
                    self.snd_buf.push_back(seg);
                    proof {
                        assert(self@.snd_buf =~= before.drop_first().push(next));
                        assert(self@.snd_buf =~= queue.skip(i + 1) + done.push(next));
                        if passed {
                            assert(next == original);
                            assert(done.push(next) + queue.skip(i + 1) =~= done + rest);
                        } else {
                            assert(next == model::bump_fastack(original, sn, ts));
                            assert(done.push(next) + model::fastack_all(queue.skip(i + 1), sn, ts)
                                =~= done + (seq![next] + model::fastack_all(
                                rest.drop_first(),
                                sn,
                                ts,
                            )));
                        }
                        done = done.push(next);
                    }
                },
                None => {},
            }
            i = i + 1;
        }
        proof {
            assert(queue.skip(n as int) =~= Seq::empty());
            assert(self@.snd_buf =~= all);
        }
    }

    fn parse_data(&mut self, new_segment: KcpSegment)
        ensures
            final(self)@ == model::parse_data(old(self)@, new_segment@),
    {
        let sn: u32 = new_segment.sn;
        if timediff(sn, self.rcv_nxt.wrapping_add(self.rcv_wnd as u32)) >= 0 || timediff(
            sn,
            self.rcv_nxt,
        ) < 0 {
            return;
        }
        let ghost queue = self@.rcv_buf;
        let ghost seg = new_segment@;
        let mut new_index: usize = self.rcv_buf.len();
        proof {
            assert(queue.take(queue.len() as int) =~= queue);
            assert(model::insert_ordered(queue, seg) + queue.skip(queue.len() as int)
                =~= model::insert_ordered(queue, seg));
        }
        while new_index > 0 && self.rcv_buf[new_index - 1].sn != sn && timediff(
            sn,
            self.rcv_buf[new_index - 1].sn,
        ) <= 0
            invariant
                self@ == old(self)@,
                queue == self@.rcv_buf,
                seg == new_segment@,
                sn == seg.sn,
                new_index <= queue.len(),
                model::insert_ordered(queue, seg) == model::insert_ordered(
                    queue.take(new_index as int),
                    seg,
                ) + queue.skip(new_index as int),
            decreases new_index,
        {
            proof {
                let front = queue.take(new_index as int);
                assert(front.drop_last() =~= queue.take(new_index - 1));
                assert(front.last() == queue[new_index - 1]);
                assert(model::insert_ordered(front.drop_last(), seg).push(front.last())
                    + queue.skip(new_index as int) =~= model::insert_ordered(
                    front.drop_last(),
                    seg,
                ) + queue.skip(new_index - 1));
            }
            new_index = new_index - 1;
        }
        let repeat: bool = new_index > 0 && self.rcv_buf[new_index - 1].sn == sn;
        proof {
            let front = queue.take(new_index as int);
            if new_index > 0 {
                assert(front.last() == queue[new_index - 1]);
            }
            assert(front + queue.skip(new_index as int) =~= queue);
            assert(front.push(seg) + queue.skip(new_index as int) =~= queue.insert(
                new_index as int,
                seg,
            ));
            assert(new_index == 0 ==> seq![seg] =~= front.push(seg));
        }
        if !repeat {
            self.rcv_buf.insert(new_index, new_segment);
            assert(self@.rcv_buf =~= queue.insert(new_index as int, seg));
        }
        // move available data from rcv_buf -> rcv_queue
        self.move_buf();
    }

    /// Call this when you received a packet from raw connection. It is a run of whole
    /// segments: one that cannot be taken is an error, and so are bytes behind the last one.
    #[verifier::rlimit(60)]
    #[verifier::spinoff_prover]
    pub fn input(&mut self, buf: &[u8]) -> (result: KcpResult<usize>)
        requires
            old(self).wf(),
        ensures
            (final(self)@, result) == model::input(old(self)@, buf@),
            final(self).wf(),
    {
        let input_size: usize = buf.len();
        if input_size < KCP_OVERHEAD {
            return Err(Error::InvalidSegmentSize);
        }
        let mut flag: bool = false;
        let mut max_ack: u32 = 0;
        let mut latest_ts: u32 = 0;
        let old_una: u32 = self.snd_una;
        let mut at: usize = 0;
        let ghost start = model::InputScan {
            state: self@,
            acked: false,
            max_ack: 0,
            latest_ts: 0,
        };
        assert(buf@.skip(0) =~= buf@);
        while at < input_size
            invariant
                at <= input_size == buf@.len(),
                self.wf(),
                self@.conv == old(self)@.conv,
                self.conv == self@.conv,
                start == (model::InputScan {
                    state: old(self)@,
                    acked: false,
                    max_ack: 0,
                    latest_ts: 0,
                }),
                model::scan_segments(start, buf@) == model::scan_segments(
                    model::InputScan { state: self@, acked: flag, max_ack, latest_ts },
                    buf@.skip(at as int),
                ),
            decreases input_size - at,
        {
            let ghost rest = buf@.skip(at as int);
            let ghost scan = model::InputScan { state: self@, acked: flag, max_ack, latest_ts };
            if input_size - at < KCP_OVERHEAD {
                return Err(Error::InvalidSegmentSize);
            }
            proof {
                octets::lemma_pow256_values();
                laws::lemma_field_of_skip(buf@, at as int);
            }
            let conv: u64 = octets::get_le(buf, at, 8);
            if conv != self.conv {
                return Err(Error::ConvInconsistent);
            }
            let len: u64 = octets::get_le(buf, at + 24, 4);
            if ((input_size - at - KCP_OVERHEAD) as u64) < len {
                return Err(Error::InvalidSegmentDataSize);
            }
            let cmd: u8 = buf[at + 8];
            if cmd != KCP_CMD_PUSH && cmd != KCP_CMD_ACK && cmd != KCP_CMD_WASK && cmd
                != KCP_CMD_WINS {
                return Err(Error::UnsupportedCmd);
            }
            // only a push carries data
            if cmd != KCP_CMD_PUSH && len != 0 {
                return Err(Error::InvalidSegmentDataSize);
            }
            let segment = KcpSegment::decode(buf, at);
            let ghost seg = segment@;
            let sn: u32 = segment.sn;
            let ts: u32 = segment.ts;
            self.rmt_wnd = segment.wnd;
            proof {
                laws::lemma_apply_segment_well_formed(scan, seg);
                assert(rest.skip(28 + model::data_len_of(rest)) =~= buf@.skip(at + 28 + len));
            }
            self.parse_una(segment.una);
            if cmd == KCP_CMD_ACK {
                let rtt: i32 = timediff(self.current, ts);
                if rtt >= 0 {
                    proof {
                        laws::lemma_apply_segment_limits(scan, seg);
                    }
                    self.update_ack(rtt as u32);
                }
                self.parse_ack(sn);
                if !flag || (timediff(sn, max_ack) > 0 && timediff(ts, latest_ts) > 0) {
                    flag = true;
                    max_ack = sn;
                    latest_ts = ts;
                }
            } else if cmd == KCP_CMD_PUSH {
                if timediff(sn, self.rcv_nxt.wrapping_add(self.rcv_wnd as u32)) < 0 {
                    self.acklist.push((sn, ts));
                    self.parse_data(segment);
                }
            } else if cmd == KCP_CMD_WASK {
                // tell remote my window size
                self.ask_tell = true;
            }
            proof {
                let next = model::apply_segment(scan, seg);
                assert(self@ =~= next.state);
                assert(model::InputScan { state: self@, acked: flag, max_ack, latest_ts } =~= next);
            }
            at = at + KCP_OVERHEAD + len as usize;
        }
        if flag {
            self.parse_fastack(max_ack, latest_ts);
        }
        proof {
            let state = model::scan_segments(start, buf@).0.state;
            laws::lemma_parse_fastack_well_formed(state, max_ack, latest_ts);
        }
        if timediff(self.snd_una, old_una) > 0 && self.cwnd < self.rmt_wnd {
            self.grow_window();
        }
        Ok(at)
    }

    /// Takes in a packet that arrived at `current`; no timer runs on that account.
    pub fn input_at(&mut self, current: u32, buf: &[u8]) -> (result: KcpResult<usize>)
        requires
            old(self).wf(),
        ensures
            (final(self)@, result) == model::input_at(old(self)@, current, buf@),
            final(self).wf(),
    {
        self.current = current;
        proof {
            assert(self@ =~= (model::KcpState { current, ..old(self)@ }));
            laws::lemma_same_queues(old(self)@, self@);
            assert(model::output_holds(self@));
            assert(model::limits_hold(self@));
        }
        self.input(buf)
    }

    /// A control block in the same state.
    pub fn duplicate(&self) -> (copy: Self)
        ensures
            copy@ == self@,
    {
        let mut output: Vec<Vec<u8>> = Vec::new();
        let mut i: usize = 0;
        while i < self.output.len()
            invariant
                i <= self.output@.len(),
                packets(output@) == packets(self.output@).take(i as int),
            decreases self.output@.len() - i,
        {
            let packet = octets::copy_range(self.output[i].as_slice(), 0, self.output[i].len());
            assert(packet@ =~= self.output@[i as int]@);
            proof {
                lemma_packets_push(output@, packet);
                assert(packets(output@).push(packet@) =~= packets(self.output@).take(i + 1));
            }
            output.push(packet);
            i = i + 1;
        }
        assert(packets(output@) =~= packets(self.output@));
        let mut acklist: Vec<(u32, u32)> = Vec::new();
        let mut k: usize = 0;
        while k < self.acklist.len()
            invariant
                k <= self.acklist@.len(),
                acklist@ == self.acklist@.take(k as int),
            decreases self.acklist@.len() - k,
        {
            acklist.push(self.acklist[k]);
            k = k + 1;
            assert(acklist@ =~= self.acklist@.take(k as int));
        }
        let copy = Kcp {
            conv: self.conv,
            mtu: self.mtu,
            mss: self.mss,
            snd_una: self.snd_una,
            snd_nxt: self.snd_nxt,
            rcv_nxt: self.rcv_nxt,
            ssthresh: self.ssthresh,
            rx_rttval: self.rx_rttval,
            rx_srtt: self.rx_srtt,
            rx_rto: self.rx_rto,
            rx_minrto: self.rx_minrto,
            timing: self.timing,
            snd_wnd: self.snd_wnd,
            rcv_wnd: self.rcv_wnd,
            rmt_wnd: self.rmt_wnd,
            cwnd: self.cwnd,
            ask_send: self.ask_send,
            ask_tell: self.ask_tell,
            current: self.current,
            ts_flush: self.ts_flush,
            nodelay: self.nodelay,
            updated: self.updated,
            ts_probe: self.ts_probe,
            probe_wait: self.probe_wait,
            incr: self.incr,
            snd_queue: duplicate_queue(&self.snd_queue),
            rcv_queue: duplicate_queue(&self.rcv_queue),
            snd_buf: duplicate_queue(&self.snd_buf),
            rcv_buf: duplicate_queue(&self.rcv_buf),
            acklist,
            buf: octets::copy_range(self.buf.as_slice(), 0, self.buf.len()),
            fastresend: self.fastresend,
            congestion_control: self.congestion_control,
            output,
        };
        assert(copy@ =~= self@);
        copy
    }

    /// Lets the congestion window grow after new data has been acknowledged.
    fn grow_window(&mut self)
        requires
            old(self).wf(),
            old(self)@.cwnd < old(self)@.rmt_wnd,
        ensures
            final(self)@ == model::grow_window(old(self)@),
            final(self).wf(),
    {
        proof {
            laws::lemma_grow_window(self@);
        }
        let ghost before = self@;
        let mss: u64 = self.mss as u64;
        if self.cwnd < self.ssthresh {
            self.cwnd = self.cwnd + 1;
            self.incr = self.incr + mss;
        } else {
            let base: u64 = if self.incr >= mss {
                self.incr
            } else {
                mss
            };
            self.incr = base + (mss * mss) / base + mss / 16;
            if (self.cwnd as u64 + 1) * mss <= self.incr {
                proof {
                    laws::lemma_div_bound(self.incr - 1, mss as int);
                }
                let ceil: u64 = (self.incr - 1) / mss + 1;
                self.cwnd = if ceil <= self.rmt_wnd as u64 {
                    ceil as u16
                } else {
                    self.rmt_wnd
                };
            }
        }
        if self.cwnd > self.rmt_wnd {
            self.cwnd = self.rmt_wnd;
            self.incr = self.rmt_wnd as u64 * mss;
        }
        assert(self@ =~= model::grow_window(before));
    }

    fn wnd_unused(&self) -> (unused: u16)
        ensures
            unused == model::wnd_unused(self@),
    {
        if self.rcv_queue.len() < self.rcv_wnd as usize {
            self.rcv_wnd - self.rcv_queue.len() as u16
        } else {
            0
        }
    }

    fn probe_wnd_size(&mut self)
        requires
            model::limits_hold(old(self)@),
        ensures
            final(self)@ == model::probe_wnd_size(old(self)@),
    {
        // probe window size (if remote window size equals zero)
        if self.rmt_wnd == 0 {
            if self.probe_wait == 0 {
                self.probe_wait = self.timing.probe_initial;
                self.ts_probe = self.current.wrapping_add(self.probe_wait);
            } else if timediff(self.current, self.ts_probe) >= 0 {
                let base: u32 = max_u32(self.probe_wait, self.timing.probe_initial);
                self.probe_wait = min_u32(base + base / 2, self.timing.probe_max);
                self.ts_probe = self.current.wrapping_add(self.probe_wait);
                self.ask_send = true;
            }
        } else {
            self.ts_probe = 0;
            self.probe_wait = 0;
        }
    }

    /// Determine when you should call `update`.
    /// Return when you should invoke `update` in millisec, if there is no `input`/`send` calling.
    /// You can call `update` at that time without calling it repeatedly.
    pub fn check(&self, current: u32) -> (wait: u32)
        ensures
            wait == model::check(self@, current),
    {
        if !self.updated {
            return 0;
        }
        let since: i32 = timediff(current, self.ts_flush);
        if since >= 0 || since < -10000 {
            return 0;
        }
        let tm_flush: u32 = timediff(self.ts_flush, current) as u32;
        let ghost queue = self@.snd_buf;
        let mut tm_packet: u32 = u32::MAX;
        let mut i: usize = 0;
        while i < self.snd_buf.len()
            invariant
                queue == self@.snd_buf,
                i <= queue.len(),
                tm_packet == model::resend_wait(queue.take(i as int), current),
            decreases queue.len() - i,
        {
            let diff: i32 = timediff(self.snd_buf[i].resendts, current);
            let wait: u32 = if diff <= 0 {
                0
            } else {
                diff as u32
            };
            proof {
                let longer = queue.take(i + 1);
                assert(longer.drop_last() =~= queue.take(i as int));
                assert(longer.last() == queue[i as int]);
            }
            tm_packet = min_u32(wait, tm_packet);
            i = i + 1;
        }
        assert(queue.take(i as int) =~= queue);
        min_u32(min_u32(tm_packet, tm_flush), self.timing.interval)
    }

    /// Get `waitsnd`, how many packet is waiting to be sent
    pub fn wait_snd(&self) -> (count: usize)
        requires
            self@.snd_buf.len() + self@.snd_queue.len() <= usize::MAX,
        ensures
            count == self@.snd_buf.len() + self@.snd_queue.len(),
    {
        self.snd_buf.len() + self.snd_queue.len()
    }

    /// Whether nothing waits to be sent or acknowledged.
    pub fn is_idle(&self) -> (idle: bool)
        ensures
            idle == (self@.snd_buf.len() + self@.snd_queue.len() == 0),
    {
        self.snd_buf.len() == 0 && self.snd_queue.len() == 0
    }

    fn emit_output(&mut self)
        ensures
            final(self)@ == model::emit(old(self)@),
    {
        if self.buf.len() > 0 {
            let ghost before = self@;
            let mut packet: Vec<u8> = Vec::new();
            std::mem::swap(&mut packet, &mut self.buf);
            self.output.push(packet);
            assert(self@.output =~= before.output.push(before.buf));
            assert(self@.buf =~= Seq::empty());
        }
    }

    /// The packets that wait to be sent, oldest first; they are handed out once.
    pub fn take_output(&mut self) -> (output: Vec<Vec<u8>>)
        requires
            old(self).wf(),
        ensures
            packets(output@) == old(self)@.output,
            final(self)@ == (model::KcpState { output: Seq::empty(), ..old(self)@ }),
            final(self).wf(),
    {
        let mut output: Vec<Vec<u8>> = Vec::new();
        std::mem::swap(&mut output, &mut self.output);
        proof {
            assert(self@.output =~= Seq::empty());
            laws::lemma_same_queues(old(self)@, self@);
        }
        output
    }

    /// Appends a segment to the packet under construction.
    fn put_segment(&mut self, segment: &KcpSegment)
        requires
            old(self)@.buf.len() <= old(self)@.mtu,
            28 + segment@.data.len() <= old(self)@.mtu,
        ensures
            final(self)@ == model::put(old(self)@, model::encode_segment(segment@)),
    {
        proof {
            laws::lemma_encode_len(segment@);
        }
        let need: usize = KCP_OVERHEAD + segment.data.len();
        if need > self.mtu - self.buf.len() {
            self.emit_output();
        }
        segment.encode(&mut self.buf);
    }

    /// A segment without payload that tells the state of the receive side.
    fn control_segment(&self, cmd: u8, sn: u32, ts: u32) -> (segment: KcpSegment)
        ensures
            segment@ == model::control_segment(self@, cmd, sn, ts),
    {
        let segment = KcpSegment {
            conv: self.conv,
            cmd,
            frg: 0,
            wnd: self.wnd_unused(),
            ts,
            sn,
            una: self.rcv_nxt,
            resendts: 0,
            rto: 0,
            fastack: 0,
            xmit: 0,
            data: Vec::new(),
        };
        assert(segment@.data =~= Seq::empty());
        segment
    }

    fn flush_ack(&mut self)
        requires
            model::holds(old(self)@),
        ensures
            final(self)@ == model::flush_ack(old(self)@),
    {
        let ghost acks = self@.acklist;
        let mut i: usize = 0;
        assert(acks.skip(0) =~= acks);
        while i < self.acklist.len()
            invariant
                i <= acks.len(),
                acks == self@.acklist,
                28 <= self@.mtu,
                model::output_holds(self@),
                model::put_acks(self@, acks.skip(i as int)) == model::put_acks(old(self)@, acks),
            decreases acks.len() - i,
        {
            let ghost before = self@;
            let (sn, ts) = self.acklist[i];
            let segment = self.control_segment(KCP_CMD_ACK, sn, ts);
            self.put_segment(&segment);
            proof {
                let rest = acks.skip(i as int);
                assert(rest.drop_first() =~= acks.skip(i + 1));
                assert(rest[0] == acks[i as int]);
                laws::lemma_encode_len(segment@);
                laws::lemma_put_holds(before, model::encode_segment(segment@));
            }
            i = i + 1;
        }
        self.acklist.clear();
        assert(self@ =~= model::flush_ack(old(self)@));
    }

    fn flush_probe_commands(&mut self, sn: u32, ts: u32)
        requires
            model::holds(old(self)@),
        ensures
            final(self)@ == model::flush_probes(old(self)@, sn, ts),
    {
        let ghost before = self@;
        let ask = self.control_segment(KCP_CMD_WASK, sn, ts);
        let tell = self.control_segment(KCP_CMD_WINS, sn, ts);
        if self.ask_send {
            self.put_segment(&ask);
            proof {
                laws::lemma_encode_len(ask@);
                laws::lemma_put_holds(before, model::encode_segment(ask@));
            }
        }
        if self.ask_tell {
            self.put_segment(&tell);
        }
        self.ask_send = false;
        self.ask_tell = false;
    }

    fn send_window(&self) -> (window: u16)
        ensures
            window == model::send_window(self@),
    {
        let flow: u16 = if self.snd_wnd <= self.rmt_wnd {
            self.snd_wnd
        } else {
            self.rmt_wnd
        };
        if self.congestion_control && self.cwnd < flow {
            self.cwnd
        } else {
            flow
        }
    }

    // move data from snd_queue to snd_buf
    fn admit_queued(&mut self, window: u16)
        ensures
            final(self)@ == model::admit_queued(old(self)@, window),
    {
        let wnd: u16 = self.wnd_unused();
        while self.snd_queue.len() > 0 && timediff(
            self.snd_nxt,
            self.snd_una.wrapping_add(window as u32),
        ) < 0
            invariant
                wnd == model::wnd_unused(self@),
                model::admit_queued(self@, window) == model::admit_queued(old(self)@, window),
            decreases self.snd_queue@.len(),
        {
            let ghost before = self@;
            match self.snd_queue.pop_front() {
                Some(mut new_segment) => {
                    new_segment.conv = self.conv;
                    new_segment.cmd = KCP_CMD_PUSH;
                    new_segment.wnd = wnd;
                    new_segment.ts = self.current;
                    new_segment.sn = self.snd_nxt;
                    self.snd_nxt = self.snd_nxt.wrapping_add(1);
                    new_segment.una = self.rcv_nxt;
                    new_segment.resendts = self.current;
                    new_segment.rto = self.rx_rto;
                    new_segment.fastack = 0;
                    new_segment.xmit = 0;
                    let ghost seg = new_segment@;
                    self.snd_buf.push_back(new_segment);
                    assert(self@.snd_buf =~= before.snd_buf.push(seg));
                },
                None => {},
            }
            assert(self@.snd_queue =~= before.snd_queue.drop_first());
            assert(self@ =~= model::admit_one(before));
        }
    }

    /// Decides whether a segment of the send buffer goes out, and prepares it.
    fn transmit(&self, segment: &mut KcpSegment, wnd: u16) -> (why: model::Sending)
        requires
            model::limits_hold(self@),
            wnd == model::wnd_unused(self@),
            old(segment)@.rto <= self@.timing.rto_max,
        ensures
            final(segment)@ == model::transmit(self@, old(segment)@),
            why == model::sending(self@, old(segment)@),
    {
        let why: model::Sending;
        if segment.xmit == 0 {
            why = model::Sending::First;
            let slack: u32 = if self.nodelay {
                0
            } else {
                self.rx_rto / 8
            };
            segment.rto = self.rx_rto;
            segment.resendts = self.current.wrapping_add(self.rx_rto + slack);
        } else if timediff(self.current, segment.resendts) >= 0 {
            why = model::Sending::Timeout;
            let longer: u32 = if self.nodelay {
                segment.rto + segment.rto / 2
            } else {
                segment.rto + max_u32(segment.rto, self.rx_rto)
            };
            segment.rto = min_u32(longer, self.timing.rto_max);
            segment.resendts = self.current.wrapping_add(segment.rto);
        } else {
            let overtaken: bool = match self.fastresend {
                Some(threshold) => segment.fastack >= threshold,
                None => false,
            };
            if overtaken && segment.xmit <= KCP_FASTACK_LIMIT {
                why = model::Sending::Fast;
                segment.fastack = 0;
                segment.resendts = self.current.wrapping_add(segment.rto);
            } else {
                return model::Sending::Keep;
            }
        }
        segment.xmit = segment.xmit.wrapping_add(1);
        segment.ts = self.current;
        segment.wnd = wnd;
        segment.una = self.rcv_nxt;
        why
    }

    /// Congestion control after the segments have been sent.
    fn adjust_window(&mut self, window: u16, lost: bool, fast: bool)
        requires
            old(self).wf(),
            fast ==> old(self)@.fastresend is Some,
        ensures
            final(self)@ == model::adjust_window(old(self)@, window, lost, fast),
    {
        proof {
            laws::lemma_adjust_window(self@, window, lost, fast);
        }
        if fast {
            let inflight: u32 = self.snd_nxt.wrapping_sub(self.snd_una);
            let half: u16 = inflight as u16 / 2;
            self.ssthresh = if half >= KCP_THRESH_MIN {
                half
            } else {
                KCP_THRESH_MIN
            };
            let resent: u32 = match self.fastresend {
                Some(threshold) => threshold,
                None => 0,
            };
            let cwnd: u64 = self.ssthresh as u64 + resent as u64;
            self.cwnd = if cwnd <= 0xffff {
                cwnd as u16
            } else {
                0xffff
            };
            self.incr = self.cwnd as u64 * self.mss as u64;
        }
        if lost {
            let half: u16 = window / 2;
            self.ssthresh = if half >= KCP_THRESH_MIN {
                half
            } else {
                KCP_THRESH_MIN
            };
            self.cwnd = 1;
            self.incr = self.mss as u64;
        }
        if self.cwnd < 1 {
            self.cwnd = 1;
            self.incr = self.mss as u64;
        }
    }

    /// Decides about the front segment of the send buffer and moves it to the back.
    fn transmit_front(&mut self, wnd: u16) -> (why: model::Sending)
        requires
            model::limits_hold(old(self)@),
            old(self)@.buf.len() <= old(self)@.mtu,
            wnd == model::wnd_unused(old(self)@),
            old(self)@.snd_buf.len() > 0,
            old(self)@.snd_buf[0].rto <= old(self)@.timing.rto_max,
            old(self)@.snd_buf[0].data.len() <= old(self)@.mss,
        ensures
            why == model::sending(old(self)@, old(self)@.snd_buf[0]),
            final(self)@ == ({
                let seg = model::transmit(old(self)@, old(self)@.snd_buf[0]);
                let out = if why is Keep {
                    old(self)@
                } else {
                    model::put(old(self)@, model::encode_segment(seg))
                };
                model::KcpState { snd_buf: old(self)@.snd_buf.drop_first().push(seg), ..out }
            }),
    {
        let ghost before = self@;
        match self.snd_buf.pop_front() {
            Some(mut segment) => {
                let ghost popped = self@;
                assert(popped.snd_buf =~= before.snd_buf.drop_first());
                let why = self.transmit(&mut segment, wnd);
                proof {
                    laws::lemma_transmit_frame(popped, before, before.snd_buf[0]);
                }
                match why {
                    model::Sending::Keep => {},
                    _ => {
                        self.put_segment(&segment);
                    },
                }
                let ghost next = segment@;
                let ghost queue = self@.snd_buf;
                self.snd_buf.push_back(segment);
                assert(self@.snd_buf =~= queue.push(next));
                why
            },
            None => model::Sending::Keep,
        }
    }

    /// Sends what is due; tells whether a retransmission timed out and whether one was
    /// triggered by overtaking acknowledgements.
    fn send_segments(&mut self) -> (flags: (bool, bool))
        requires
            model::holds(old(self)@),
        ensures
            final(self)@ == (model::KcpState {
                snd_buf: Seq::new(
                    old(self)@.snd_buf.len(),
                    |i: int| model::transmit(old(self)@, old(self)@.snd_buf[i]),
                ),
                ..model::put_segments(old(self)@, old(self)@.snd_buf.len())
            }),
            flags.0 == model::any_sent(
                old(self)@,
                old(self)@.snd_buf.len(),
                model::Sending::Timeout,
            ),
            flags.1 == model::any_sent(old(self)@, old(self)@.snd_buf.len(), model::Sending::Fast),
            flags.1 ==> old(self)@.fastresend is Some,
    {
        let ghost ready = self@;
        let wnd: u16 = self.wnd_unused();
        let n: usize = self.snd_buf.len();
        let mut i: usize = 0;
        let mut lost: bool = false;
        let mut fast: bool = false;
        let ghost sent = Seq::new(n as nat, |i: int| model::transmit(ready, ready.snd_buf[i]));
        assert(ready.snd_buf.skip(0) + sent.take(0) =~= ready.snd_buf);
        while i < n
            invariant
                i <= n == ready.snd_buf.len(),
                model::holds(ready),
                wnd == model::wnd_unused(ready),
                sent == Seq::new(n as nat, |i: int| model::transmit(ready, ready.snd_buf[i])),
                self@ == (model::KcpState {
                    snd_buf: ready.snd_buf.skip(i as int) + sent.take(i as int),
                    ..model::put_segments(ready, i as nat)
                }),
                lost == model::any_sent(ready, i as nat, model::Sending::Timeout),
                fast == model::any_sent(ready, i as nat, model::Sending::Fast),
                fast ==> ready.fastresend is Some,
            decreases n - i,
        {
            let ghost before = self@;
            proof {
                laws::lemma_put_segments_holds(ready, i as nat);
                laws::lemma_any_sent_step(ready, i as nat, model::Sending::Timeout);
                laws::lemma_any_sent_step(ready, i as nat, model::Sending::Fast);
                laws::lemma_transmit_frame(before, ready, ready.snd_buf[i as int]);
                assert(before.snd_buf[0] == ready.snd_buf[i as int]);
            }
            match self.transmit_front(wnd) {
                model::Sending::Timeout => {
                    lost = true;
                },
                model::Sending::Fast => {
                    fast = true;
                },
                _ => {},
            }
            proof {
                assert(before.snd_buf.drop_first().push(sent[i as int]) =~= ready.snd_buf.skip(
                    i + 1,
                ) + sent.take(i + 1));
            }
            i = i + 1;
        }
        assert(ready.snd_buf.skip(n as int) + sent.take(n as int) =~= sent);
        (lost, fast)
    }

    /// Flush pending data in buffer.
    pub fn flush(&mut self) -> (result: KcpResult<()>)
        requires
            old(self).wf(),
        ensures
            (final(self)@, result) == model::flush(old(self)@),
            final(self).wf(),
    {
        if !self.updated {
            return Err(Error::NeedUpdate);
        }
        proof {
            laws::lemma_flushed_well_formed(self@);
        }
        let (sn, ts): (u32, u32) = if self.acklist.len() > 0 {
            self.acklist[self.acklist.len() - 1]
        } else {
            (0, 0)
        };
        proof {
            laws::lemma_controls_hold(self@, sn, ts);
        }
        self.flush_ack();
        self.probe_wnd_size();
        self.flush_probe_commands(sn, ts);
        let window: u16 = self.send_window();
        self.admit_queued(window);
        let (lost, fast) = self.send_segments();
        proof {
            let ready = model::before_segments(old(self)@);
            laws::lemma_sent_well_formed(ready);
            laws::lemma_put_segments_holds(ready, ready.snd_buf.len());
        }
        self.emit_output();
        self.adjust_window(window, lost, fast);
        Ok(())
    }

    pub fn update(&mut self, current: u32) -> (result: KcpResult<()>)
        requires
            old(self).wf(),
        ensures
            result == Ok::<(), Error>(()),
            final(self)@ == model::update(old(self)@, current),
            final(self).wf(),
    {
        self.current = current;
        if !self.updated {
            self.updated = true;
            self.ts_flush = self.current;
        }
        let mut slap: i32 = timediff(self.current, self.ts_flush);
        if slap < -10000 || slap >= 10000 {
            self.ts_flush = self.current;
            slap = 0;
        }
        if slap >= 0 {
            self.ts_flush = self.ts_flush.wrapping_add(self.timing.interval);
            if timediff(self.current, self.ts_flush) >= 0 {
                self.ts_flush = self.current.wrapping_add(self.timing.interval);
            }
            proof {
                assert(self@ =~= model::tick(old(self)@, current).0);
                laws::lemma_same_queues(old(self)@, self@);
            }
            return self.flush();
        }
        proof {
            laws::lemma_same_queues(old(self)@, self@);
        }
        Ok(())
    }
}

} // verus!
